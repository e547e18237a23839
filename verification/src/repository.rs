//! The storage contract shared by every backend, the mathematical model of a
//! store, the in-memory backend, and the laws of the task lifecycle.

use vstd::prelude::*;

use crate::database::{
    exec_create_table, exec_delete, get_connection, insert_task, query_all_tasks, query_task,
    DbPool,
};
use crate::model::{Task, TaskView};

verus! {

/// The mathematical state of a store: the stored tasks in insertion order and
/// the id counter, from which every new id is taken.
pub ghost struct StoreModel {
    pub tasks: Seq<TaskView>,
    pub count: u32,
}

/// The state of a store that has never held a task.
pub open spec fn model_fresh() -> StoreModel {
    StoreModel { tasks: Seq::empty(), count: 0 }
}

/// Well-formedness of a store: every stored id was allocated below the
/// counter, and no two stored tasks share an id.
pub open spec fn model_wf(m: StoreModel) -> bool {
    &&& forall|i: int| 0 <= i < m.tasks.len() ==> (#[trigger] m.tasks[i]).id < m.count
    &&& forall|i: int, j: int|
        0 <= i < j < m.tasks.len() ==> (#[trigger] m.tasks[i]).id != (#[trigger] m.tasks[j]).id
}

/// The task an `add` of `name` returns: the counter's value becomes its id.
pub open spec fn model_added(m: StoreModel, name: Seq<char>) -> TaskView {
    TaskView { id: m.count, name: name }
}

/// The store after an `add` of `name`: the new task is appended and the
/// counter moves up by one.
pub open spec fn model_add(m: StoreModel, name: Seq<char>) -> StoreModel {
    StoreModel { tasks: m.tasks.push(model_added(m, name)), count: (m.count + 1) as u32 }
}

/// The first task with the given id, if any.
pub open spec fn model_find(tasks: Seq<TaskView>, id: u32) -> Option<TaskView>
    decreases tasks.len(),
{
    if tasks.len() == 0 {
        None
    } else if tasks[0].id == id {
        Some(tasks[0])
    } else {
        model_find(tasks.drop_first(), id)
    }
}

/// The sequence with the first task of the given id removed, if any.
pub open spec fn model_remove(tasks: Seq<TaskView>, id: u32) -> Seq<TaskView>
    decreases tasks.len(),
{
    if tasks.len() == 0 {
        tasks
    } else if tasks[0].id == id {
        tasks.drop_first()
    } else {
        seq![tasks[0]] + model_remove(tasks.drop_first(), id)
    }
}

/// The store after a `delete` of `id`: the first such task is removed and the
/// counter is untouched, so the id is never handed out again.
pub open spec fn model_delete(m: StoreModel, id: u32) -> StoreModel {
    StoreModel { tasks: model_remove(m.tasks, id), count: m.count }
}

/// The values of a sequence of tasks.
pub open spec fn tasks_view(r: Seq<Task>) -> Seq<TaskView> {
    r.map_values(|t: Task| t@)
}

/// The value of an optional task.
pub open spec fn opt_view(r: Option<Task>) -> Option<TaskView> {
    match r {
        Some(t) => Some(t@),
        None => None,
    }
}

/// The capability set every store backend offers: list, add, get, delete.
///
/// The spec functions let each backend say how much it promises: the
/// in-memory backend relates every operation to [`StoreModel`], while the
/// durable backend, whose state lives outside the process, promises only the
/// clauses written on the methods themselves.
pub trait Repository: Sized {
    /// The backend's internal well-formedness.
    spec fn inv(&self) -> bool;

    /// Whether the backend can still allocate a fresh id.
    spec fn can_add(&self) -> bool;

    /// What `get_tasks` returns, beyond the shared clauses.
    spec fn list_ens(&self, r: Seq<TaskView>) -> bool;

    /// How `add_task` changes the store, beyond the shared clauses.
    spec fn add_ens(pre: Self, post: Self, name: Seq<char>, t: TaskView) -> bool;

    /// What `get_task` returns, beyond the shared clauses.
    spec fn get_ens(&self, id: u32, r: Option<TaskView>) -> bool;

    /// How `delete_task` changes the store, beyond the shared clauses.
    spec fn delete_ens(pre: Self, post: Self, id: u32, r: Option<TaskView>) -> bool;

    /// All tasks currently stored; an empty store yields an empty vector.
    fn get_tasks(&self) -> (r: Vec<Task>)
        requires
            self.inv(),
        ensures
            self.list_ens(tasks_view(r@)),
    ;

    /// Stores a new task under a freshly allocated id and returns the stored
    /// copy.
    fn add_task(&mut self, name: String) -> (t: Task)
        requires
            old(self).inv(),
            old(self).can_add(),
        ensures
            final(self).inv(),
            t@.name == name@,
            Self::add_ens(*old(self), *final(self), name@, t@),
    ;

    /// The task with the given id, or nothing when the id is absent.
    fn get_task(&self, id: u32) -> (r: Option<Task>)
        requires
            self.inv(),
        ensures
            r matches Some(t) ==> t@.id == id,
            self.get_ens(id, opt_view(r)),
    ;

    /// Removes the task with the given id and returns the removed copy, or
    /// nothing when the id is absent; absence is not an error.
    fn delete_task(&mut self, id: u32) -> (r: Option<Task>)
        requires
            old(self).inv(),
        ensures
            final(self).inv(),
            r matches Some(t) ==> t@.id == id,
            Self::delete_ens(*old(self), *final(self), id, opt_view(r)),
    ;
}

/// The volatile backend: tasks in insertion order beside a monotonic counter.
/// State is lost when the value is dropped; ids are never reused while the
/// store lives.
pub struct Memory {
    pub tasks: Vec<Task>,
    pub count: u32,
}

impl View for Memory {
    type V = StoreModel;

    open spec fn view(&self) -> StoreModel {
        StoreModel { tasks: tasks_view(self.tasks@), count: self.count }
    }
}

impl Memory {
    /// A fresh store: no tasks, counter at zero.
    pub fn new() -> (r: Self)
        ensures
            r@ == model_fresh(),
            r.inv(),
    {
        let r = Memory { tasks: Vec::new(), count: 0 };
        proof {
            assert(tasks_view(r.tasks@) =~= Seq::<TaskView>::empty());
        }
        r
    }
}

impl Repository for Memory {
    open spec fn inv(&self) -> bool {
        model_wf(self@)
    }

    open spec fn can_add(&self) -> bool {
        self@.count < u32::MAX
    }

    open spec fn list_ens(&self, r: Seq<TaskView>) -> bool {
        r == self@.tasks
    }

    open spec fn add_ens(pre: Self, post: Self, name: Seq<char>, t: TaskView) -> bool {
        &&& post@ == model_add(pre@, name)
        &&& t == model_added(pre@, name)
    }

    open spec fn get_ens(&self, id: u32, r: Option<TaskView>) -> bool {
        r == model_find(self@.tasks, id)
    }

    open spec fn delete_ens(pre: Self, post: Self, id: u32, r: Option<TaskView>) -> bool {
        &&& post@ == model_delete(pre@, id)
        &&& r == model_find(pre@.tasks, id)
    }

    fn get_tasks(&self) -> (r: Vec<Task>) {
        let mut out: Vec<Task> = Vec::new();
        let n = self.tasks.len();
        let mut i: usize = 0;
        while i < n
            invariant
                i <= n,
                n == self.tasks.len(),
                out@ == self.tasks@.take(i as int),
            decreases n - i,
        {
            let t = self.tasks[i].clone();
            out.push(t);
            proof {
                assert(out@ =~= self.tasks@.take(i + 1 as int));
            }
            i += 1;
        }
        proof {
            assert(self.tasks@.take(n as int) =~= self.tasks@);
        }
        out
    }

    fn add_task(&mut self, name: String) -> (t: Task) {
        let id = self.count;
        self.count = self.count + 1;
        let task = Task { id, name };
        let stored = task.clone();
        self.tasks.push(stored);
        proof {
            assert(tasks_view(self.tasks@) =~= tasks_view(old(self).tasks@).push(task@));
            lemma_get_after_add(old(self)@, task.name@);
        }
        task
    }

    fn get_task(&self, id: u32) -> (r: Option<Task>) {
        let n = self.tasks.len();
        let mut i: usize = 0;
        while i < n
            invariant
                i <= n,
                n == self.tasks.len(),
                forall|k: int| 0 <= k < i ==> (#[trigger] tasks_view(self.tasks@)[k]).id != id,
            decreases n - i,
        {
            if self.tasks[i].id == id {
                proof {
                    lemma_find_skip(tasks_view(self.tasks@), id, i as int);
                }
                return Some(self.tasks[i].clone());
            }
            i += 1;
        }
        proof {
            lemma_find_skip(tasks_view(self.tasks@), id, n as int);
        }
        None
    }

    fn delete_task(&mut self, id: u32) -> (r: Option<Task>) {
        let n = self.tasks.len();
        let mut i: usize = 0;
        while i < n
            invariant
                i <= n,
                n == self.tasks.len(),
                *self == *old(self),
                old(self).inv(),
                forall|k: int| 0 <= k < i ==> (#[trigger] tasks_view(self.tasks@)[k]).id != id,
            decreases n - i,
        {
            if self.tasks[i].id == id {
                proof {
                    lemma_find_skip(tasks_view(self.tasks@), id, i as int);
                    lemma_remove_at(tasks_view(self.tasks@), id, i as int);
                }
                let t = self.tasks.remove(i);
                proof {
                    assert(tasks_view(self.tasks@) =~= tasks_view(old(self).tasks@).remove(
                        i as int,
                    ));
                    lemma_get_after_delete(old(self)@, id);
                }
                return Some(t);
            }
            i += 1;
        }
        proof {
            lemma_find_skip(tasks_view(self.tasks@), id, n as int);
            lemma_remove_absent(tasks_view(self.tasks@), id);
        }
        None
    }
}

/// The durable backend: every operation runs its SQL over one pooled
/// connection, acquired for that operation alone. The authoritative state
/// lives in the database file, outside this process, so the operations here
/// promise only what holds of every outcome; id uniqueness rests on the
/// engine's own primary key allocation.
pub struct Database {
    pub pool: DbPool,
}

impl Database {
    /// A store over the pooled database; makes sure the `tasks` table
    /// exists, which is safe to repeat on every startup.
    pub fn new(pool: DbPool) -> (r: Self)
        ensures
            r.inv(),
            r.pool == pool,
    {
        let connection = get_connection(&pool);
        exec_create_table(&connection);
        Database { pool }
    }
}

/// One task per row, keeping id, name and order: the verified half of the
/// durable backend's `list`.
pub fn tasks_from_rows(rows: Vec<(u32, String)>) -> (r: Vec<Task>)
    ensures
        r@.len() == rows@.len(),
        forall|k: int|
            0 <= k < rows@.len() ==> (#[trigger] r@[k])@.id == rows@[k].0 && r@[k]@.name
                == rows@[k].1@,
{
    let mut out: Vec<Task> = Vec::new();
    let n = rows.len();
    let mut i: usize = 0;
    while i < n
        invariant
            i <= n,
            n == rows@.len(),
            out@.len() == i,
            forall|k: int|
                0 <= k < i ==> (#[trigger] out@[k])@.id == rows@[k].0 && out@[k]@.name
                    == rows@[k].1@,
        decreases n - i,
    {
        let id = rows[i].0;
        let name = rows[i].1.clone();
        out.push(Task { id, name });
        i += 1;
    }
    out
}

/// The task a queried row stands for, provided the row indeed carries the
/// queried id: the verified half of the durable backend's `get` and
/// `delete`. A row under any other id is treated as no find at all.
pub fn task_from_row(row: Option<(u32, String)>, id: u32) -> (r: Option<Task>)
    ensures
        match row {
            Some(p) => {
                if p.0 == id {
                    r matches Some(t) && t@.id == id && t@.name == p.1@
                } else {
                    r is None
                }
            },
            None => r is None,
        },
{
    match row {
        Some(p) => {
            if p.0 == id {
                Some(Task { id: p.0, name: p.1 })
            } else {
                None
            }
        },
        None => None,
    }
}

impl Repository for Database {
    open spec fn inv(&self) -> bool {
        true
    }

    open spec fn can_add(&self) -> bool {
        true
    }

    open spec fn list_ens(&self, r: Seq<TaskView>) -> bool {
        true
    }

    open spec fn add_ens(pre: Self, post: Self, name: Seq<char>, t: TaskView) -> bool {
        true
    }

    open spec fn get_ens(&self, id: u32, r: Option<TaskView>) -> bool {
        true
    }

    open spec fn delete_ens(pre: Self, post: Self, id: u32, r: Option<TaskView>) -> bool {
        true
    }

    fn get_tasks(&self) -> (r: Vec<Task>) {
        let connection = get_connection(&self.pool);
        let rows = query_all_tasks(&connection);
        tasks_from_rows(rows)
    }

    fn add_task(&mut self, name: String) -> (t: Task) {
        let connection = get_connection(&self.pool);
        let id = insert_task(&connection, name.as_str());
        Task { id, name }
    }

    fn get_task(&self, id: u32) -> (r: Option<Task>) {
        let connection = get_connection(&self.pool);
        let row = query_task(&connection, id);
        task_from_row(row, id)
    }

    fn delete_task(&mut self, id: u32) -> (r: Option<Task>) {
        let connection = get_connection(&self.pool);
        let row = query_task(&connection, id);
        let task = task_from_row(row, id);
        exec_delete(&connection, id);
        task
    }
}

/// Scanning from the front: once the first `i` tasks are known not to carry
/// `id`, the search result is decided by the rest alone.
proof fn lemma_find_skip(tasks: Seq<TaskView>, id: u32, i: int)
    requires
        0 <= i <= tasks.len(),
        forall|k: int| 0 <= k < i ==> (#[trigger] tasks[k]).id != id,
    ensures
        model_find(tasks, id) == model_find(tasks.skip(i), id),
    decreases i,
{
    if i > 0 {
        lemma_find_skip(tasks, id, i - 1);
        assert(tasks.skip(i - 1).drop_first() =~= tasks.skip(i));
        assert(tasks.skip(i - 1)[0] == tasks[i - 1]);
    } else {
        assert(tasks.skip(0) =~= tasks);
    }
}

/// Removing the first task carrying `id` is removal at the first matching
/// index.
proof fn lemma_remove_at(tasks: Seq<TaskView>, id: u32, i: int)
    requires
        0 <= i < tasks.len(),
        tasks[i].id == id,
        forall|k: int| 0 <= k < i ==> (#[trigger] tasks[k]).id != id,
    ensures
        model_remove(tasks, id) == tasks.remove(i),
    decreases i,
{
    if i == 0 {
        assert(tasks.drop_first() =~= tasks.remove(0));
    } else {
        lemma_remove_at(tasks.drop_first(), id, i - 1);
        assert(model_remove(tasks, id) == seq![tasks[0]] + model_remove(tasks.drop_first(), id));
        assert(seq![tasks[0]] + tasks.drop_first().remove(i - 1) =~= tasks.remove(i));
    }
}

/// Removing an id that is not stored leaves the tasks as they were.
proof fn lemma_remove_absent(tasks: Seq<TaskView>, id: u32)
    requires
        model_find(tasks, id) is None,
    ensures
        model_remove(tasks, id) == tasks,
    decreases tasks.len(),
{
    if tasks.len() > 0 {
        lemma_remove_absent(tasks.drop_first(), id);
        assert(seq![tasks[0]] + tasks.drop_first() =~= tasks);
    }
}

/// A task whose id no stored task carries is found, at the end, exactly where
/// it was appended.
proof fn lemma_find_fresh_push(tasks: Seq<TaskView>, t: TaskView)
    requires
        forall|k: int| 0 <= k < tasks.len() ==> (#[trigger] tasks[k]).id != t.id,
    ensures
        model_find(tasks.push(t), t.id) == Some(t),
    decreases tasks.len(),
{
    if tasks.len() == 0 {
        assert(tasks.push(t)[0] == t);
    } else {
        assert(tasks.push(t).drop_first() =~= tasks.drop_first().push(t));
        lemma_find_fresh_push(tasks.drop_first(), t);
    }
}

/// A store created fresh lists no tasks — `list` on it is the empty
/// sequence — it finds nothing under any id, and it is well-formed.
pub proof fn lemma_fresh_list_empty()
    ensures
        model_fresh().tasks.len() == 0,
        forall|id: u32| model_find(model_fresh().tasks, id) is None,
        model_wf(model_fresh()),
{
}

/// An `add` allocates an id no stored task carries, and a `get` of the id an
/// `add` returned, made before anything else changes the store, finds exactly
/// the task the `add` returned.
pub proof fn lemma_get_after_add(m: StoreModel, name: Seq<char>)
    requires
        model_wf(m),
        m.count < u32::MAX,
    ensures
        forall|k: int| 0 <= k < m.tasks.len() ==> (#[trigger] m.tasks[k]).id != model_added(
            m,
            name,
        ).id,
        model_wf(model_add(m, name)),
        model_find(model_add(m, name).tasks, model_added(m, name).id) == Some(
            model_added(m, name),
        ),
{
    lemma_find_fresh_push(m.tasks, model_added(m, name));
    assert forall|i: int|
        0 <= i < model_add(m, name).tasks.len() implies (#[trigger] model_add(
        m,
        name,
    ).tasks[i]).id < model_add(m, name).count by {
        if i < m.tasks.len() {
            assert(model_add(m, name).tasks[i] == m.tasks[i]);
        }
    }
}

/// A `delete` returns the task a `get` of the same id would have returned
/// (both are the first stored task carrying the id), and afterwards a `get`
/// of that id finds nothing.
pub proof fn lemma_get_after_delete(m: StoreModel, id: u32)
    requires
        model_wf(m),
    ensures
        model_find(model_delete(m, id).tasks, id) is None,
        model_wf(model_delete(m, id)),
{
    lemma_remove_then_find(m.tasks, id);
    lemma_remove_wf(m, id);
}

/// After removing the first task carrying `id` from tasks with pairwise
/// distinct ids, no task carrying `id` is left.
proof fn lemma_remove_then_find(tasks: Seq<TaskView>, id: u32)
    requires
        forall|i: int, j: int|
            0 <= i < j < tasks.len() ==> (#[trigger] tasks[i]).id != (#[trigger] tasks[j]).id,
    ensures
        model_find(model_remove(tasks, id), id) is None,
    decreases tasks.len(),
{
    if tasks.len() == 0 {
    } else if tasks[0].id == id {
        assert forall|k: int|
            0 <= k < tasks.drop_first().len() implies (#[trigger] tasks.drop_first()[k]).id
            != id by {
            assert(tasks.drop_first()[k] == tasks[k + 1]);
        }
        lemma_find_skip(tasks.drop_first(), id, tasks.drop_first().len() as int);
        assert(tasks.drop_first().skip(tasks.drop_first().len() as int)
            =~= Seq::<TaskView>::empty());
    } else {
        lemma_remove_then_find(tasks.drop_first(), id);
        let r = seq![tasks[0]] + model_remove(tasks.drop_first(), id);
        assert(r[0] == tasks[0]);
        assert(r.drop_first() =~= model_remove(tasks.drop_first(), id));
    }
}

/// Removal keeps well-formedness: what is left was among what was stored.
proof fn lemma_remove_wf(m: StoreModel, id: u32)
    requires
        model_wf(m),
    ensures
        model_wf(model_delete(m, id)),
{
    lemma_remove_sub(m.tasks, id);
    let r = model_remove(m.tasks, id);
    assert forall|i: int| 0 <= i < r.len() implies (#[trigger] r[i]).id < m.count by {
        assert(m.tasks.contains(r[i]));
        let w = choose|w: int| 0 <= w < m.tasks.len() && m.tasks[w] == r[i];
        assert(m.tasks[w].id < m.count);
    }
}

/// Every task left after a removal was among the stored ones, and tasks with
/// pairwise distinct ids keep that after a removal.
proof fn lemma_remove_sub(tasks: Seq<TaskView>, id: u32)
    requires
        forall|i: int, j: int|
            0 <= i < j < tasks.len() ==> (#[trigger] tasks[i]).id != (#[trigger] tasks[j]).id,
    ensures
        forall|i: int|
            0 <= i < model_remove(tasks, id).len() ==> tasks.contains(
                #[trigger] model_remove(tasks, id)[i],
            ),
        forall|i: int, j: int|
            0 <= i < j < model_remove(tasks, id).len() ==> (#[trigger] model_remove(
                tasks,
                id,
            )[i]).id != (#[trigger] model_remove(tasks, id)[j]).id,
    decreases tasks.len(),
{
    if tasks.len() == 0 {
    } else if tasks[0].id == id {
        let r = tasks.drop_first();
        assert forall|i: int| 0 <= i < r.len() implies tasks.contains(#[trigger] r[i]) by {
            assert(tasks[i + 1] == r[i]);
        }
        assert forall|i: int, j: int|
            0 <= i < j < r.len() implies (#[trigger] r[i]).id != (#[trigger] r[j]).id by {
            assert(tasks[i + 1] == r[i]);
            assert(tasks[j + 1] == r[j]);
        }
    } else {
        let d = tasks.drop_first();
        assert forall|i: int, j: int|
            0 <= i < j < d.len() implies (#[trigger] d[i]).id != (#[trigger] d[j]).id by {
            assert(tasks[i + 1] == d[i]);
            assert(tasks[j + 1] == d[j]);
        }
        lemma_remove_sub(d, id);
        let rr = model_remove(d, id);
        let r = model_remove(tasks, id);
        assert(r == seq![tasks[0]] + rr);
        assert forall|i: int| 0 <= i < r.len() implies tasks.contains(#[trigger] r[i]) by {
            if i == 0 {
                assert(tasks[0] == r[0]);
            } else {
                assert(r[i] == rr[i - 1]);
                assert(d.contains(rr[i - 1]));
                let w = choose|w: int| 0 <= w < d.len() && d[w] == rr[i - 1];
                assert(tasks[w + 1] == d[w]);
            }
        }
        assert forall|i: int, j: int|
            0 <= i < j < r.len() implies (#[trigger] r[i]).id != (#[trigger] r[j]).id by {
            if i == 0 {
                assert(r[j] == rr[j - 1]);
                assert(d.contains(rr[j - 1]));
                let w = choose|w: int| 0 <= w < d.len() && d[w] == rr[j - 1];
                assert(tasks[w + 1] == d[w]);
                assert(tasks[0].id != tasks[w + 1].id);
                assert(tasks[0] == r[0]);
            } else {
                assert(r[i] == rr[i - 1]);
                assert(r[j] == rr[j - 1]);
            }
        }
    }
}

/// Deleting an id the store has never held returns nothing and leaves the
/// listed tasks exactly as they were.
pub proof fn lemma_delete_absent(m: StoreModel, id: u32)
    requires
        model_find(m.tasks, id) is None,
    ensures
        model_delete(m, id) == m,
{
    lemma_remove_absent(m.tasks, id);
}

/// The store after a sequence of `add` calls, one per name, in order.
pub open spec fn model_add_all(m: StoreModel, names: Seq<Seq<char>>) -> StoreModel
    decreases names.len(),
{
    if names.len() == 0 {
        m
    } else {
        model_add_all(model_add(m, names[0]), names.drop_first())
    }
}

/// The ids those `add` calls return, in order.
pub open spec fn model_added_ids(m: StoreModel, names: Seq<Seq<char>>) -> Seq<u32>
    decreases names.len(),
{
    if names.len() == 0 {
        Seq::empty()
    } else {
        seq![m.count] + model_added_ids(model_add(m, names[0]), names.drop_first())
    }
}

/// Any sequence of `add` calls returns pairwise distinct ids, and none of the
/// additions is lost: the store grows by exactly one task per call.
pub proof fn lemma_adds_distinct_and_complete(m: StoreModel, names: Seq<Seq<char>>)
    requires
        m.count + names.len() <= u32::MAX,
    ensures
        model_added_ids(m, names).len() == names.len(),
        forall|k: int| 0 <= k < names.len() ==> model_added_ids(m, names)[k] == m.count + k,
        forall|i: int, j: int|
            0 <= i < j < names.len() ==> model_added_ids(m, names)[i] != model_added_ids(
                m,
                names,
            )[j],
        model_add_all(m, names).tasks.len() == m.tasks.len() + names.len(),
        model_add_all(m, names).count == m.count + names.len(),
    decreases names.len(),
{
    if names.len() > 0 {
        lemma_adds_distinct_and_complete(model_add(m, names[0]), names.drop_first());
        let ids = model_added_ids(m, names);
        let rest = model_added_ids(model_add(m, names[0]), names.drop_first());
        assert forall|k: int| 0 <= k < names.len() implies ids[k] == m.count + k by {
            if k > 0 {
                assert(ids[k] == rest[k - 1]);
            }
        }
    }
}

/// One lifecycle operation that changes a store; reads change nothing and
/// need no entry in a history.
pub ghost enum StoreOp {
    Add { name: Seq<char> },
    Delete { id: u32 },
}

/// The store after one operation.
pub open spec fn model_step(m: StoreModel, op: StoreOp) -> StoreModel {
    match op {
        StoreOp::Add { name } => model_add(m, name),
        StoreOp::Delete { id } => model_delete(m, id),
    }
}

/// The store after a whole history of operations, in order.
pub open spec fn model_run(m: StoreModel, ops: Seq<StoreOp>) -> StoreModel
    decreases ops.len(),
{
    if ops.len() == 0 {
        m
    } else {
        model_run(model_step(m, ops[0]), ops.drop_first())
    }
}

/// How many operations of a history are adds.
pub open spec fn count_adds(ops: Seq<StoreOp>) -> nat
    decreases ops.len(),
{
    if ops.len() == 0 {
        0
    } else {
        count_adds(ops.drop_first()) + (if ops[0] is Add {
            1nat
        } else {
            0nat
        })
    }
}

/// The ids the adds of a history return, in order.
pub open spec fn run_added_ids(m: StoreModel, ops: Seq<StoreOp>) -> Seq<u32>
    decreases ops.len(),
{
    if ops.len() == 0 {
        Seq::empty()
    } else if ops[0] is Add {
        seq![m.count] + run_added_ids(model_step(m, ops[0]), ops.drop_first())
    } else {
        run_added_ids(model_step(m, ops[0]), ops.drop_first())
    }
}

/// Across any history of adds and deletes on one store — `add_ens` and
/// `delete_ens` make every in-memory operation one `model_step` — the ids
/// the adds return are pairwise distinct, in fact strictly increasing, and
/// never below the counter the history started from: a delete never frees
/// an id for reuse. The one premise is the machine limit on the counter.
pub proof fn lemma_history_ids_distinct(m: StoreModel, ops: Seq<StoreOp>)
    requires
        m.count + count_adds(ops) <= u32::MAX,
    ensures
        run_added_ids(m, ops).len() == count_adds(ops),
        forall|k: int|
            0 <= k < run_added_ids(m, ops).len() ==> m.count <= #[trigger] run_added_ids(
                m,
                ops,
            )[k],
        forall|i: int, j: int|
            0 <= i < j < run_added_ids(m, ops).len() ==> (#[trigger] run_added_ids(m, ops)[i])
                < (#[trigger] run_added_ids(m, ops)[j]),
    decreases ops.len(),
{
    if ops.len() > 0 {
        let m2 = model_step(m, ops[0]);
        let rest = run_added_ids(m2, ops.drop_first());
        lemma_history_ids_distinct(m2, ops.drop_first());
        if ops[0] is Add {
            let ids = run_added_ids(m, ops);
            assert(ids == seq![m.count] + rest);
            assert forall|k: int| 0 <= k < ids.len() implies m.count <= #[trigger] ids[k] by {
                if k > 0 {
                    assert(ids[k] == rest[k - 1]);
                }
            }
            assert forall|i: int, j: int|
                0 <= i < j < ids.len() implies (#[trigger] ids[i]) < (#[trigger] ids[j]) by {
                if i == 0 {
                    assert(ids[j] == rest[j - 1]);
                } else {
                    assert(ids[i] == rest[i - 1]);
                    assert(ids[j] == rest[j - 1]);
                }
            }
        }
    }
}

} // verus!
