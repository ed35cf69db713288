//! The task lifecycle manager.
//!
//! Owns task creation (with date defaulting and color lookup), validation,
//! week-windowed listing with priority ordering, soft deletion by tombstone
//! timestamp, and day rollover.  The store keeps every task ever created;
//! a task with a `deleted_at` timestamp is invisible to the standard
//! queries but never physically removed.

use crate::colors::{get_or_assign_client_color, ClientColorMap, ColorMapModel};
use crate::date::{Date, MAX_DAYS, MIN_DAYS};
use chrono::Datelike;
use vstd::multiset::Multiset;
use vstd::prelude::*;

verus! {

/// A task row.
#[derive(Debug)]
pub struct Task {
    /// Store-assigned identifier, unique and monotonically increasing.
    pub id: i64,
    /// Owning client; the allocator's lookup key.
    pub client_name: String,
    /// What the task is about.
    pub description: String,
    /// The day the task is scheduled for.
    pub task_date: Date,
    /// The owning client's color as of creation time, kept denormalized.
    pub client_color: String,
    /// Creation time, Unix seconds, immutable.
    pub created_at: i64,
    /// Tombstone: `None` means active; once set the task is soft-deleted
    /// and never restored.
    pub deleted_at: Option<i64>,
    /// Lower value means higher priority; `None` sorts after all values.
    pub priority: Option<i32>,
}

/// What a caller supplies to create a task.
#[derive(Debug)]
pub struct CreateTaskPayload {
    pub client_name: String,
    pub description: String,
    /// Defaults to "today" when absent.
    pub task_date: Option<Date>,
    pub priority: Option<i32>,
}

/// Mathematical model of a task.
#[verifier::ext_equal]
pub struct TaskModel {
    pub id: int,
    pub client_name: Seq<char>,
    pub description: Seq<char>,
    pub task_date: int,
    pub client_color: Seq<char>,
    pub created_at: int,
    pub deleted_at: Option<int>,
    pub priority: Option<int>,
}

/// Mathematical model of a creation payload.
#[verifier::ext_equal]
pub struct PayloadModel {
    pub client_name: Seq<char>,
    pub description: Seq<char>,
    pub task_date: Option<int>,
    pub priority: Option<int>,
}

impl View for Task {
    type V = TaskModel;

    open spec fn view(&self) -> TaskModel {
        TaskModel {
            id: self.id as int,
            client_name: self.client_name@,
            description: self.description@,
            task_date: self.task_date.days as int,
            client_color: self.client_color@,
            created_at: self.created_at as int,
            deleted_at: match self.deleted_at {
                Some(t) => Some(t as int),
                None => None,
            },
            priority: match self.priority {
                Some(p) => Some(p as int),
                None => None,
            },
        }
    }
}

impl View for CreateTaskPayload {
    type V = PayloadModel;

    open spec fn view(&self) -> PayloadModel {
        PayloadModel {
            client_name: self.client_name@,
            description: self.description@,
            task_date: match self.task_date {
                Some(d) => Some(d.days as int),
                None => None,
            },
            priority: match self.priority {
                Some(p) => Some(p as int),
                None => None,
            },
        }
    }
}

impl Clone for Task {
    /// An exact copy.
    fn clone(&self) -> (r: Task)
        ensures
            r == *self,
    {
        Task {
            id: self.id,
            client_name: self.client_name.clone(),
            description: self.description.clone(),
            task_date: self.task_date,
            client_color: self.client_color.clone(),
            created_at: self.created_at,
            deleted_at: self.deleted_at,
            priority: self.priority,
        }
    }
}

/// Why a creation payload was rejected.
#[derive(Clone, Copy, PartialEq, Eq, Structural, Debug)]
pub enum TaskError {
    /// The client name or the description is empty.
    EmptyFields,
    /// The (effective) task date lies outside the current week.
    DateOutsideWeek,
}

impl TaskError {
    /// The client-facing description of the error.
    pub fn message(&self) -> (s: String)
        ensures
            *self == TaskError::EmptyFields ==> s@ == "Client name and description cannot be empty."@,
            *self == TaskError::DateOutsideWeek ==> s@ == "Task date must be within the current week"@,
    {
        match self {
            TaskError::EmptyFields => "Client name and description cannot be empty.".to_owned(),
            TaskError::DateOutsideWeek => "Task date must be within the current week".to_owned(),
        }
    }
}

/// Mathematical model of the store: the task rows in creation order and the
/// next identifier to assign.
#[verifier::ext_equal]
pub struct StoreModel {
    pub tasks: Seq<TaskModel>,
    pub next_id: int,
}

impl StoreModel {
    /// Well-formedness: identifiers are positive, below `next_id` and
    /// pairwise distinct, and every date lies in the range a 32-bit day
    /// count can hold.
    pub open spec fn wf(self) -> bool {
        &&& 1 <= self.next_id <= i64::MAX
        &&& forall|i: int|
            0 <= i < self.tasks.len() ==> 1 <= (#[trigger] self.tasks[i]).id < self.next_id
        &&& forall|i: int|
            0 <= i < self.tasks.len() ==> MIN_DAYS <= (#[trigger] self.tasks[i]).task_date
                <= MAX_DAYS
        &&& forall|i: int, j: int|
            0 <= i < j < self.tasks.len() ==> self.tasks[i].id != self.tasks[j].id
    }

    /// Whether an active (not soft-deleted) task with this id exists.
    pub open spec fn has_active(self, task_id: int) -> bool {
        exists|i: int|
            0 <= i < self.tasks.len() && self.tasks[i].id == task_id && self.tasks[i].deleted_at
                is None
    }

    /// The index of the active task with this id (meaningful when
    /// `has_active`).
    pub open spec fn active_index(self, task_id: int) -> int {
        choose|i: int|
            0 <= i < self.tasks.len() && self.tasks[i].id == task_id && self.tasks[i].deleted_at
                is None
    }
}

/// The date a payload asks for: its own date, or "today" when absent.
pub open spec fn spec_effective_date(p: PayloadModel, today: Date) -> int {
    match p.task_date {
        Some(d) => d,
        None => today.days as int,
    }
}

/// The task that creating `p` appends: the next id, the payload fields, the
/// effective date, the color the allocator returns for the client, the
/// creation timestamp, and no tombstone.
pub open spec fn spec_new_task(
    s: StoreModel,
    c: ColorMapModel,
    p: PayloadModel,
    today: Date,
    now: int,
) -> TaskModel {
    TaskModel {
        id: s.next_id,
        client_name: p.client_name,
        description: p.description,
        task_date: spec_effective_date(p, today),
        client_color: c.assign(p.client_name).1,
        created_at: now,
        deleted_at: None,
        priority: p.priority,
    }
}

/// The store: all task rows in creation order, plus the id counter.
pub struct TaskStore {
    tasks: Vec<Task>,
    next_id: i64,
}

impl View for TaskStore {
    type V = StoreModel;

    closed spec fn view(&self) -> StoreModel {
        StoreModel {
            tasks: self.tasks@.map_values(|t: Task| t@),
            next_id: self.next_id as int,
        }
    }
}

impl TaskStore {
    /// An empty store; the first task will get id 1.
    pub fn new() -> (s: TaskStore)
        ensures
            s@.wf(),
            s@.tasks.len() == 0,
            s@.next_id == 1,
    {
        let s = TaskStore { tasks: Vec::new(), next_id: 1 };
        proof {
            assert(s@.tasks =~= Seq::<TaskModel>::empty());
        }
        s
    }

    /// The identifier the next created task will receive.
    pub fn next_task_id(&self) -> (id: i64)
        ensures
            id == self@.next_id,
    {
        self.next_id
    }

    /// Number of rows the store holds, soft-deleted rows included.
    pub fn task_count(&self) -> (n: usize)
        ensures
            n == self@.tasks.len(),
    {
        self.tasks.len()
    }

    /// The `i`-th row in creation order.
    pub fn task_at(&self, i: usize) -> (t: &Task)
        requires
            i < self@.tasks.len(),
        ensures
            t@ == self@.tasks[i as int],
    {
        &self.tasks[i]
    }

    /// Inserts a new task built from `payload`, resolving the client's color
    /// through the allocator; `task_date` defaults to `today` and
    /// `created_at` is set to `now`.  Returns the stored row.
    pub fn create_task(
        &mut self,
        colors: &mut ClientColorMap,
        payload: CreateTaskPayload,
        today: Date,
        now: i64,
    ) -> (t: Task)
        requires
            old(self)@.wf(),
            old(colors)@.wf(),
            today.wf(),
            old(self)@.next_id < i64::MAX,
            payload@.task_date matches Some(d) ==> MIN_DAYS <= d <= MAX_DAYS,
        ensures
            final(self)@.wf(),
            final(colors)@.wf(),
            final(colors)@ == old(colors)@.assign(payload@.client_name).0,
            t@ == spec_new_task(old(self)@, old(colors)@, payload@, today, now as int),
            final(self)@.tasks == old(self)@.tasks.push(t@),
            final(self)@.next_id == old(self)@.next_id + 1,
    {
        let ghost prev = self@;
        let color = get_or_assign_client_color(colors, payload.client_name.as_str());
        let task_date = match payload.task_date {
            Some(d) => d,
            None => today,
        };
        let task = Task {
            id: self.next_id,
            client_name: payload.client_name,
            description: payload.description,
            task_date,
            client_color: color,
            created_at: now,
            deleted_at: None,
            priority: payload.priority,
        };
        let result = task.clone();
        let ghost task_view = task@;
        self.tasks.push(task);
        self.next_id = self.next_id + 1;
        proof {
            assert(self@.tasks =~= prev.tasks.push(task_view));
            assert(task_view =~= spec_new_task(prev, old(colors)@, payload@, today, now as int));
        }
        result
    }

    /// Rejects a payload whose client name or description is empty, or whose
    /// effective date (its own, or `today` when absent) falls outside the
    /// Monday-to-Sunday week of `today`; accepts every other payload.
    pub fn validate_payload(payload: &CreateTaskPayload, today: Date) -> (r: Result<
        (),
        TaskError,
    >)
        requires
            today.wf(),
            payload@.task_date matches Some(d) ==> MIN_DAYS <= d <= MAX_DAYS,
        ensures
            r == spec_validate_payload(payload@, today),
    {
        if payload.client_name.as_str().is_empty() || payload.description.as_str().is_empty() {
            return Err(TaskError::EmptyFields);
        }
        let effective = match payload.task_date {
            Some(d) => d,
            None => today,
        };
        if !effective.in_week_of(today) {
            return Err(TaskError::DateOutsideWeek);
        }
        Ok(())
    }
}

/// Whether a task shows in the week listing of `today`: it is active and
/// its date falls in the Monday-to-Sunday week of `today`, bounds inclusive.
pub open spec fn spec_listed(t: TaskModel, today: Date) -> bool {
    t.deleted_at is None && today.spec_week_start() <= t.task_date <= today.spec_week_end()
}

/// The listing test as a function value, for filtering.
pub open spec fn listed_pred(today: Date) -> spec_fn(TaskModel) -> bool {
    |t: TaskModel| spec_listed(t, today)
}

/// A priority's sort rank: the value itself, with absence ranked after
/// every representable value.
pub open spec fn prio_rank(p: Option<int>) -> int {
    match p {
        Some(v) => v,
        None => i32::MAX + 1,
    }
}

/// The listing order: ascending date, then ascending priority with absent
/// priority last.
pub open spec fn spec_task_le(a: TaskModel, b: TaskModel) -> bool {
    ||| a.task_date < b.task_date
    ||| (a.task_date == b.task_date && prio_rank(a.priority) <= prio_rank(b.priority))
}

/// Exec mirror of `prio_rank` (every `i32` priority is below the rank of an
/// absent one).
fn prio_rank_exec(p: Option<i32>) -> (r: i64)
    ensures
        r == prio_rank(
            match p {
                Some(v) => Some(v as int),
                None => None,
            },
        ),
{
    match p {
        Some(v) => v as i64,
        None => 2147483648i64,
    }
}

/// Exec mirror of `spec_task_le`.
fn task_le(a: &Task, b: &Task) -> (r: bool)
    ensures
        r == spec_task_le(a@, b@),
{
    if a.task_date.days != b.task_date.days {
        a.task_date.days < b.task_date.days
    } else {
        prio_rank_exec(a.priority) <= prio_rank_exec(b.priority)
    }
}

/// Sorts tasks by date, then priority with absent priority last.  The
/// result holds exactly the input tasks.
fn sort_tasks(input: Vec<Task>) -> (out: Vec<Task>)
    ensures
        out@.map_values(|t: Task| t@).to_multiset() == input@.map_values(
            |t: Task| t@,
        ).to_multiset(),
        out@.len() == input@.len(),
        forall|i: int, j: int| 0 <= i < j < out@.len() ==> spec_task_le(out@[i]@, out@[j]@),
{
    broadcast use vstd::seq_lib::group_to_multiset_ensures;

    let ghost orig = input@.map_values(|t: Task| t@);
    let mut work = input;
    let mut out: Vec<Task> = Vec::new();
    while work.len() > 0
        invariant
            out@.map_values(|t: Task| t@).to_multiset().add(
                work@.map_values(|t: Task| t@).to_multiset(),
            ) == orig.to_multiset(),
            out@.len() + work@.len() == orig.len(),
            forall|a: int, b: int| 0 <= a < b < out@.len() ==> spec_task_le(out@[a]@, out@[b]@),
            forall|a: int, b: int|
                0 <= a < out@.len() && 0 <= b < work@.len() ==> spec_task_le(out@[a]@, work@[b]@),
        decreases work.len(),
    {
        let mut m: usize = 0;
        let mut k: usize = 1;
        while k < work.len()
            invariant
                m < k <= work@.len(),
                forall|j: int| 0 <= j < k ==> spec_task_le(work@[m as int]@, #[trigger] work@[j]@),
            decreases work.len() - k,
        {
            if task_le(&work[k], &work[m]) {
                m = k;
            }
            k += 1;
        }
        let ghost out_views = out@.map_values(|t: Task| t@);
        let ghost work_views = work@.map_values(|t: Task| t@);
        let ghost prev_out = out@;
        let ghost prev_work = work@;
        let t = work.remove(m);
        out.push(t);
        proof {
            broadcast use vstd::seq_lib::group_to_multiset_ensures;

            let x = t@;
            assert(work_views[m as int] == x);
            assert(work@.map_values(|t: Task| t@) =~= work_views.remove(m as int));
            assert(out@.map_values(|t: Task| t@) =~= out_views.push(x));
            assert(work_views.contains(x));
            assert(work_views.to_multiset().count(x) > 0);
            assert(out_views.push(x).to_multiset() =~= out_views.to_multiset().insert(x));
            assert(work_views.remove(m as int).to_multiset() =~= work_views.to_multiset().remove(
                x,
            ));
            assert(out_views.to_multiset().insert(x).add(work_views.to_multiset().remove(x)) =~=
            out_views.to_multiset().add(work_views.to_multiset()));
            assert forall|a: int, b: int|
                0 <= a < out@.len() && 0 <= b < work@.len() implies spec_task_le(
                out@[a]@,
                work@[b]@,
            ) by {
                assert(work@ == prev_work.remove(m as int));
                if b < m {
                    assert(work@[b] == prev_work[b]);
                } else {
                    assert(work@[b] == prev_work[b + 1]);
                }
                if a < prev_out.len() {
                    assert(out@[a] == prev_out[a]);
                } else {
                    assert(out@[a] == t);
                    assert(spec_task_le(prev_work[m as int]@, work@[b]@));
                }
            }
            assert forall|a: int, b: int|
                0 <= a < b < out@.len() implies spec_task_le(out@[a]@, out@[b]@) by {
                if b < prev_out.len() {
                    assert(out@[a] == prev_out[a]);
                    assert(out@[b] == prev_out[b]);
                } else {
                    assert(out@[b] == t);
                    assert(out@[a] == prev_out[a]);
                    assert(spec_task_le(prev_out[a]@, prev_work[m as int]@));
                }
            }
        }
    }
    proof {
        broadcast use vstd::seq_lib::group_to_multiset_ensures;

        let wm = work@.map_values(|t: Task| t@);
        let om = out@.map_values(|t: Task| t@);
        assert(wm.len() == 0);
        assert forall|x: TaskModel| wm.to_multiset().count(x) == 0 by {
            if wm.to_multiset().count(x) > 0 {
                assert(wm.contains(x));
            }
        }
        assert(wm.to_multiset() =~= Multiset::<TaskModel>::empty());
        assert(om.to_multiset().add(wm.to_multiset()) =~= om.to_multiset());
        assert(om.to_multiset() =~= orig.to_multiset());
    }
    out
}

impl TaskStore {
    /// The active tasks whose dates fall in the Monday-to-Sunday week of
    /// `today`, ordered by ascending date, then ascending priority with
    /// absent priority last.
    pub fn list_current_week(&self, today: Date) -> (r: Vec<Task>)
        requires
            self@.wf(),
            today.wf(),
        ensures
            r@.map_values(|t: Task| t@).to_multiset() == self@.tasks.filter(
                listed_pred(today),
            ).to_multiset(),
            forall|i: int, j: int| 0 <= i < j < r@.len() ==> spec_task_le(r@[i]@, r@[j]@),
            forall|i: int| 0 <= i < r@.len() ==> spec_listed(#[trigger] r@[i]@, today),
    {
        let mut work: Vec<Task> = Vec::new();
        let n = self.tasks.len();
        let mut i: usize = 0;
        while i < n
            invariant
                n == self@.tasks.len(),
                i <= n,
                self@.wf(),
                today.wf(),
                work@.map_values(|t: Task| t@) == self@.tasks.take(i as int).filter(
                    listed_pred(today),
                ),
            decreases n - i,
        {
            let ghost prev_work = work@.map_values(|t: Task| t@);
            let ghost cur = self@.tasks[i as int];
            let t = &self.tasks[i];
            proof {
                assert(t@ == cur);
            }
            if t.deleted_at.is_none() && t.task_date.in_week_of(today) {
                work.push(t.clone());
                proof {
                    assert(work@.map_values(|t: Task| t@) =~= prev_work.push(cur));
                }
            }
            proof {
                self@.tasks.lemma_take_succ_push(i as int);
                self@.tasks.take(i as int).lemma_filter_push(cur, listed_pred(today));
                assert(listed_pred(today)(cur) == spec_listed(cur, today));
                assert(work@.map_values(|t: Task| t@) == self@.tasks.take(i + 1).filter(
                    listed_pred(today),
                ));
            }
            i += 1;
        }
        proof {
            assert(self@.tasks.take(n as int) =~= self@.tasks);
        }
        let out = sort_tasks(work);
        proof {
            broadcast use vstd::seq_lib::group_to_multiset_ensures;
            broadcast use vstd::seq_lib::group_filter_ensures;

            let out_views = out@.map_values(|t: Task| t@);
            let listed = self@.tasks.filter(listed_pred(today));
            assert forall|i: int| 0 <= i < out@.len() implies spec_listed(
                #[trigger] out@[i]@,
                today,
            ) by {
                assert(out_views.contains(out_views[i]));
                assert(out_views.to_multiset().count(out_views[i]) > 0);
                assert(listed.to_multiset().count(out_views[i]) > 0);
                assert(listed.contains(out_views[i]));
                let w = choose|w: int| 0 <= w < listed.len() && listed[w] == out_views[i];
                assert(listed_pred(today)(listed[w]));
            }
        }
        out
    }
}

/// A task with its tombstone set to `now`.
pub open spec fn spec_tombstoned(t: TaskModel, now: int) -> TaskModel {
    TaskModel { deleted_at: Some(now), ..t }
}

/// Soft deletion: when an active task carries `task_id`, that task gets its
/// tombstone set and the call reports `true`; otherwise (absent id, or a
/// task already deleted) nothing changes and the call reports `false`.
pub open spec fn spec_soft_delete(s: StoreModel, task_id: int, now: int) -> (StoreModel, bool) {
    if s.has_active(task_id) {
        let i = s.active_index(task_id);
        (
            StoreModel {
                tasks: s.tasks.update(i, spec_tombstoned(s.tasks[i], now)),
                next_id: s.next_id,
            },
            true,
        )
    } else {
        (s, false)
    }
}

/// Whether rollover moves a task: it is active and dated exactly `today`.
pub open spec fn roll_pred(today: Date) -> spec_fn(TaskModel) -> bool {
    |t: TaskModel| t.deleted_at is None && t.task_date == today.days
}

/// One task after rollover: an active task dated `today` moves to the next
/// day; every other task is untouched.
pub open spec fn spec_roll_task(t: TaskModel, today: Date) -> TaskModel {
    if t.deleted_at is None && t.task_date == today.days {
        TaskModel { task_date: t.task_date + 1, ..t }
    } else {
        t
    }
}

/// Rollover: every active task dated `today` moves to the next day, and the
/// number of tasks moved is reported.
pub open spec fn spec_rollover(s: StoreModel, today: Date) -> (StoreModel, int) {
    (
        StoreModel {
            tasks: s.tasks.map_values(|t: TaskModel| spec_roll_task(t, today)),
            next_id: s.next_id,
        },
        s.tasks.filter(roll_pred(today)).len() as int,
    )
}

impl TaskStore {
    /// Sets `deleted_at` to `now` on the task with `task_id`, but only if
    /// that task exists and is still active.  Returns whether a task was
    /// updated; an absent id and an already-deleted task both yield
    /// `false`.
    pub fn soft_delete_task(&mut self, task_id: i64, now: i64) -> (deleted: bool)
        requires
            old(self)@.wf(),
        ensures
            final(self)@ == spec_soft_delete(old(self)@, task_id as int, now as int).0,
            deleted == spec_soft_delete(old(self)@, task_id as int, now as int).1,
            deleted == old(self)@.has_active(task_id as int),
            final(self)@.wf(),
    {
        let n = self.tasks.len();
        let mut i: usize = 0;
        while i < n
            invariant
                n == self@.tasks.len(),
                i <= n,
                self@ == old(self)@,
                old(self)@.wf(),
                forall|k: int|
                    0 <= k < i ==> !((#[trigger] self@.tasks[k]).id == task_id
                        && self@.tasks[k].deleted_at is None),
            decreases n - i,
        {
            let is_active = self.tasks[i].deleted_at.is_none();
            if self.tasks[i].id == task_id && is_active {
                let mut t = self.tasks[i].clone();
                t.deleted_at = Some(now);
                let ghost prev = self@;
                let ghost tv = t@;
                self.tasks.set(i, t);
                proof {
                    assert(prev.tasks[i as int].id == task_id && prev.tasks[i as int].deleted_at
                        is None);
                    assert(prev.has_active(task_id as int));
                    let w = prev.active_index(task_id as int);
                    assert(0 <= w < prev.tasks.len() && prev.tasks[w].id == task_id);
                    if w < i {
                        assert(prev.tasks[w].id != prev.tasks[i as int].id);
                    } else if w > i {
                        assert(prev.tasks[i as int].id != prev.tasks[w].id);
                    }
                    assert(w == i);
                    assert(tv =~= spec_tombstoned(prev.tasks[i as int], now as int));
                    assert(self@.tasks =~= prev.tasks.update(
                        i as int,
                        spec_tombstoned(prev.tasks[i as int], now as int),
                    ));
                    assert(self@ =~= spec_soft_delete(prev, task_id as int, now as int).0);
                    assert forall|p: int|
                        0 <= p < self@.tasks.len() implies 1 <= (
                    #[trigger] self@.tasks[p]).id < self@.next_id && MIN_DAYS
                        <= self@.tasks[p].task_date <= MAX_DAYS by {
                        assert(self@.tasks[p].id == prev.tasks[p].id);
                    }
                    assert forall|p: int, q: int|
                        0 <= p < q < self@.tasks.len() implies self@.tasks[p].id
                        != self@.tasks[q].id by {
                        assert(self@.tasks[p].id == prev.tasks[p].id);
                        assert(self@.tasks[q].id == prev.tasks[q].id);
                    }
                }
                return true;
            }
            i += 1;
        }
        proof {
            assert(!old(self)@.has_active(task_id as int));
        }
        false
    }

    /// Moves every active task dated `today` to the next day and returns
    /// how many tasks were moved.  Soft-deleted tasks and tasks dated any
    /// other day are untouched.
    pub fn rollover_tasks(&mut self, today: Date) -> (count: usize)
        requires
            old(self)@.wf(),
            today.wf(),
            today.days < MAX_DAYS,
        ensures
            final(self)@ == spec_rollover(old(self)@, today).0,
            count == spec_rollover(old(self)@, today).1,
            final(self)@.wf(),
    {
        let n = self.tasks.len();
        let mut count: usize = 0;
        let mut i: usize = 0;
        while i < n
            invariant
                n == self@.tasks.len(),
                i <= n,
                count <= i,
                old(self)@.wf(),
                today.wf(),
                today.days < MAX_DAYS,
                self@.next_id == old(self)@.next_id,
                self@.tasks.len() == old(self)@.tasks.len(),
                forall|k: int| i <= k < n ==> self@.tasks[k] == old(self)@.tasks[k],
                forall|k: int|
                    0 <= k < i ==> self@.tasks[k] == spec_roll_task(
                        (#[trigger] old(self)@.tasks[k]),
                        today,
                    ),
                count == old(self)@.tasks.take(i as int).filter(roll_pred(today)).len(),
            decreases n - i,
        {
            let ghost cur = old(self)@.tasks[i as int];
            let active = self.tasks[i].deleted_at.is_none();
            if active && self.tasks[i].task_date.days == today.days {
                let mut t = self.tasks[i].clone();
                t.task_date = today.succ();
                self.tasks.set(i, t);
                count += 1;
                proof {
                    assert(self@.tasks[i as int] =~= spec_roll_task(cur, today));
                }
            } else {
                proof {
                    assert(self@.tasks[i as int] == spec_roll_task(cur, today));
                }
            }
            proof {
                old(self)@.tasks.lemma_take_succ_push(i as int);
                old(self)@.tasks.take(i as int).lemma_filter_len_push(roll_pred(today), cur);
                assert(roll_pred(today)(cur) == (cur.deleted_at is None && cur.task_date
                    == today.days));
            }
            i += 1;
        }
        proof {
            assert(old(self)@.tasks.take(n as int) =~= old(self)@.tasks);
            assert(self@.tasks =~= old(self)@.tasks.map_values(
                |t: TaskModel| spec_roll_task(t, today),
            ));
            assert(self@ =~= spec_rollover(old(self)@, today).0);
            assert forall|p: int|
                0 <= p < self@.tasks.len() implies 1 <= (#[trigger] self@.tasks[p]).id
                < self@.next_id && MIN_DAYS <= self@.tasks[p].task_date <= MAX_DAYS by {
                assert(self@.tasks[p] == spec_roll_task(old(self)@.tasks[p], today));
            }
            assert forall|p: int, q: int|
                0 <= p < q < self@.tasks.len() implies self@.tasks[p].id != self@.tasks[q].id by {
                assert(self@.tasks[p] == spec_roll_task(old(self)@.tasks[p], today));
                assert(self@.tasks[q] == spec_roll_task(old(self)@.tasks[q], today));
            }
        }
        count
    }
}

/// The validation verdict on a payload: empty fields are reported first,
/// then a date outside the week of `today`; everything else is accepted.
pub open spec fn spec_validate_payload(p: PayloadModel, today: Date) -> Result<(), TaskError> {
    if p.client_name.len() == 0 || p.description.len() == 0 {
        Err(TaskError::EmptyFields)
    } else if !(today.spec_week_start() <= spec_effective_date(p, today)
        <= today.spec_week_end()) {
        Err(TaskError::DateOutsideWeek)
    } else {
        Ok(())
    }
}

/// A creation result reduced to its model.
pub open spec fn res_model(r: Result<Task, TaskError>) -> Result<TaskModel, TaskError> {
    match r {
        Ok(t) => Ok(t@),
        Err(e) => Err(e),
    }
}

/// The whole creation flow for one request: a payload that fails validation
/// is rejected before anything is touched; otherwise the task is created
/// and the allocator advances.
pub open spec fn spec_handle_create(
    s: StoreModel,
    c: ColorMapModel,
    p: PayloadModel,
    today: Date,
    now: int,
) -> (StoreModel, ColorMapModel, Result<TaskModel, TaskError>) {
    match spec_validate_payload(p, today) {
        Err(e) => (s, c, Err(e)),
        Ok(u) => (
            StoreModel {
                tasks: s.tasks.push(spec_new_task(s, c, p, today, now)),
                next_id: s.next_id + 1,
            },
            c.assign(p.client_name).0,
            Ok(spec_new_task(s, c, p, today, now)),
        ),
    }
}

/// Relies on chrono's `Utc::now`, `DateTime::date_naive` and
/// `Datelike::num_days_from_ce`: the current UTC date as a day number
/// counted from January 1 of year 1.  chrono returns the count as `i32`,
/// and its dates span roughly 262,000 years either way of year 1, which is
/// under 100 million days.
#[verifier::external_body]
fn today_utc() -> (d: Date)
    ensures
        d.wf(),
        -100000000 <= d.days <= 100000000,
{
    Date { days: chrono::Utc::now().date_naive().num_days_from_ce() as i64 }
}

/// Relies on chrono's `Utc::now` and `DateTime::timestamp`: the current UTC
/// time as Unix seconds.  Nothing is promised of the value.
#[verifier::external_body]
fn now_timestamp_utc() -> (t: i64) {
    chrono::Utc::now().timestamp()
}

impl TaskStore {
    /// Validates `payload` against the week of `today` and, when it is
    /// acceptable, creates the task dated as requested (or `today`) with
    /// `created_at` set to `now`.
    pub fn handle_create_task(
        &mut self,
        colors: &mut ClientColorMap,
        payload: CreateTaskPayload,
        today: Date,
        now: i64,
    ) -> (r: Result<Task, TaskError>)
        requires
            old(self)@.wf(),
            old(colors)@.wf(),
            today.wf(),
            old(self)@.next_id < i64::MAX,
            payload@.task_date matches Some(d) ==> MIN_DAYS <= d <= MAX_DAYS,
        ensures
            final(self)@.wf(),
            final(colors)@.wf(),
            (final(self)@, final(colors)@, res_model(r)) == spec_handle_create(
                old(self)@,
                old(colors)@,
                payload@,
                today,
                now as int,
            ),
    {
        match TaskStore::validate_payload(&payload, today) {
            Err(e) => Err(e),
            Ok(u) => Ok(self.create_task(colors, payload, today, now)),
        }
    }

    /// Validates and creates against the real clock: "today" and the
    /// creation instant are read from the system UTC clock, and the
    /// decision is `spec_handle_create` for that day and instant.
    pub fn create_task_today(
        &mut self,
        colors: &mut ClientColorMap,
        payload: CreateTaskPayload,
    ) -> (r: Result<Task, TaskError>)
        requires
            old(self)@.wf(),
            old(colors)@.wf(),
            old(self)@.next_id < i64::MAX,
            payload@.task_date matches Some(d) ==> MIN_DAYS <= d <= MAX_DAYS,
        ensures
            final(self)@.wf(),
            final(colors)@.wf(),
            exists|today: Date, now: int|
                today.wf() && (#[trigger] spec_handle_create(
                    old(self)@,
                    old(colors)@,
                    payload@,
                    today,
                    now,
                )) == (final(self)@, final(colors)@, res_model(r)),
    {
        let today = today_utc();
        let now = now_timestamp_utc();
        let r = self.handle_create_task(colors, payload, today, now);
        proof {
            assert(spec_handle_create(old(self)@, old(colors)@, payload@, today, now as int) == (
                self@,
                colors@,
                res_model(r),
            ));
        }
        r
    }

    /// Soft-deletes against the real clock: the tombstone instant is read
    /// from the system UTC clock.
    pub fn soft_delete_task_now(&mut self, task_id: i64) -> (deleted: bool)
        requires
            old(self)@.wf(),
        ensures
            final(self)@.wf(),
            deleted == old(self)@.has_active(task_id as int),
            exists|now: int| (#[trigger] spec_soft_delete(old(self)@, task_id as int, now)) == (
                final(self)@,
                deleted,
            ),
    {
        let now = now_timestamp_utc();
        let deleted = self.soft_delete_task(task_id, now);
        proof {
            assert(spec_soft_delete(old(self)@, task_id as int, now as int) == (self@, deleted));
        }
        deleted
    }

    /// Rolls over against the real clock: "today" is read from the system
    /// UTC clock.
    pub fn rollover_today(&mut self) -> (count: usize)
        requires
            old(self)@.wf(),
        ensures
            final(self)@.wf(),
            exists|today: Date|
                today.wf() && (#[trigger] spec_rollover(old(self)@, today)) == (
                    final(self)@,
                    count as int,
                ),
    {
        let today = today_utc();
        let count = self.rollover_tasks(today);
        proof {
            assert(spec_rollover(old(self)@, today) == (self@, count as int));
        }
        count
    }

    /// Lists the current week against the real clock: "today" is read from
    /// the system UTC clock.
    pub fn list_current_week_today(&self) -> (r: Vec<Task>)
        requires
            self@.wf(),
        ensures
            forall|i: int, j: int| 0 <= i < j < r@.len() ==> spec_task_le(r@[i]@, r@[j]@),
            exists|today: Date|
                today.wf() && r@.map_values(|t: Task| t@).to_multiset() == (
                #[trigger] self@.tasks.filter(listed_pred(today))).to_multiset() && (forall|i: int|
                    0 <= i < r@.len() ==> spec_listed(#[trigger] r@[i]@, today)),
    {
        let today = today_utc();
        let r = self.list_current_week(today);
        proof {
            assert(r@.map_values(|t: Task| t@).to_multiset() == self@.tasks.filter(
                listed_pred(today),
            ).to_multiset() && (forall|i: int| 0 <= i < r@.len() ==> spec_listed(
                #[trigger] r@[i]@,
                today,
            )));
        }
        r
    }
}

/// Law: creating a task and then listing the week of `today` shows the new
/// task exactly when its date falls in that week — the filtered listing
/// gains precisely the new task — and leaves the listing unchanged when the
/// date falls outside the week.
pub proof fn lemma_create_then_list_week(
    s: StoreModel,
    c: ColorMapModel,
    p: PayloadModel,
    today: Date,
    now: int,
)
    requires
        s.wf(),
        c.wf(),
        today.wf(),
    ensures
        ({
            let t = spec_new_task(s, c, p, today, now);
            let s1 = StoreModel { tasks: s.tasks.push(t), next_id: s.next_id + 1 };
            &&& (today.spec_week_start() <= t.task_date <= today.spec_week_end()
                ==> s1.tasks.filter(listed_pred(today)) == s.tasks.filter(listed_pred(today)).push(
                t,
            ))
            &&& (!(today.spec_week_start() <= t.task_date <= today.spec_week_end())
                ==> s1.tasks.filter(listed_pred(today)) == s.tasks.filter(listed_pred(today)))
        }),
{
    let t = spec_new_task(s, c, p, today, now);
    s.tasks.lemma_filter_push(t, listed_pred(today));
    assert(listed_pred(today)(t) == spec_listed(t, today));
    assert(t.deleted_at is None);
}

/// Law: soft-deleting an existing active task reports `true` and leaves no
/// active task under that id, so later week listings exclude it; a second
/// soft deletion of the same id then reports `false` and changes nothing.
pub proof fn lemma_soft_delete_then_gone(
    s: StoreModel,
    task_id: int,
    now: int,
    now2: int,
    today: Date,
)
    requires
        s.wf(),
        s.has_active(task_id),
    ensures
        ({
            let (s1, ok) = spec_soft_delete(s, task_id, now);
            &&& ok
            &&& !s1.has_active(task_id)
            &&& spec_soft_delete(s1, task_id, now2) == (s1, false)
            &&& forall|k: int|
                0 <= k < s1.tasks.len() && (#[trigger] s1.tasks[k]).id == task_id
                    ==> s1.tasks[k].deleted_at == Some(now) && !spec_listed(s1.tasks[k], today)
        }),
{
    let i = s.active_index(task_id);
    let (s1, ok) = spec_soft_delete(s, task_id, now);
    assert(0 <= i < s.tasks.len() && s.tasks[i].id == task_id && s.tasks[i].deleted_at is None);
    assert forall|k: int|
        0 <= k < s1.tasks.len() && (#[trigger] s1.tasks[k]).id == task_id implies s1.tasks[k].deleted_at
        == Some(now) && !spec_listed(s1.tasks[k], today) by {
        if k != i {
            if k < i {
                assert(s.tasks[k].id != s.tasks[i].id);
            } else {
                assert(s.tasks[i].id != s.tasks[k].id);
            }
            assert(s1.tasks[k] == s.tasks[k]);
            assert(false);
        } else {
            assert(s1.tasks[i].deleted_at == Some(now));
        }
    }
    assert(!s1.has_active(task_id));
}

/// Law: rollover moves exactly the active tasks dated `today` to the next
/// day and reports their number; every task dated another day, and every
/// soft-deleted task, is untouched.
pub proof fn lemma_rollover_effects(s: StoreModel, today: Date)
    requires
        s.wf(),
    ensures
        ({
            let (s1, n) = spec_rollover(s, today);
            &&& s1.tasks.len() == s.tasks.len()
            &&& n == s.tasks.filter(roll_pred(today)).len()
            &&& forall|k: int|
                0 <= k < s.tasks.len() && (#[trigger] s.tasks[k]).deleted_at is None
                    && s.tasks[k].task_date == today.days ==> s1.tasks[k] == (TaskModel {
                    task_date: today.days + 1,
                    ..s.tasks[k]
                })
            &&& forall|k: int|
                0 <= k < s.tasks.len() && !((#[trigger] s.tasks[k]).deleted_at is None
                    && s.tasks[k].task_date == today.days) ==> s1.tasks[k] == s.tasks[k]
        }),
{
}

} // verus!
