//! The store: the relational state of the tracker and every operation
//! on it.
//!
//! [`Store`] holds three tables — tasks, tags, and the many-to-many
//! task-tag links — together with the two id counters.  Its
//! mathematical value is a [`StoreModel`]; every operation's contract
//! says exactly which model the operation leaves behind, via the
//! `*_model` spec functions, and when it returns which error.
//!
//! Standing rules of the state (see [`StoreModel::wf`]): task and tag
//! ids are unique and below their counters, task names are non-empty,
//! `completed_at` is present exactly on completed tasks, tag names are
//! unique and the tag table is sorted by name, links are unique pairs
//! and reference only existing rows.

use vstd::prelude::*;
use crate::clock;
use crate::order::{lemma_lex_connected, lemma_lex_irreflexive, lemma_lex_transitive, lex_lt, str_lt};
use crate::time::Timestamp;
use crate::types::{NewTag, NewTagModel, Tag, TagModel, Task, TaskError, TaskModel};

verus! {

broadcast use
    Seq::lemma_filter_push,
    Seq::lemma_take_succ_push,
    Seq::lemma_push_map_commute,
    Seq::lemma_take_len,
;

/// Filtering keeps a sequence free of duplicates.
proof fn lemma_filter_distinct<A>(s: Seq<A>, p: spec_fn(A) -> bool)
    requires
        forall|i: int, j: int| 0 <= i < j < s.len() ==> s[i] != s[j],
    ensures
        forall|i: int, j: int|
            0 <= i < j < s.filter(p).len() ==> s.filter(p)[i] != s.filter(p)[j],
    decreases s.len(),
{
    reveal(Seq::filter);
    if s.len() > 0 {
        let dl = s.drop_last();
        let last = s.last();
        lemma_filter_distinct(dl, p);
        if p(last) {
            assert(s.filter(p) == dl.filter(p).push(last));
            assert forall|i: int, j: int|
                0 <= i < j < s.filter(p).len() implies s.filter(p)[i] != s.filter(p)[j] by {
                if j == s.filter(p).len() - 1 {
                    assert(dl.filter(p).contains(dl.filter(p)[i]));
                    dl.lemma_filter_contains_rev(p, dl.filter(p)[i]);
                    let k = choose|k: int| 0 <= k < dl.len() && dl[k] == dl.filter(p)[i];
                    assert(s[k] == dl[k]);
                    assert(s[k] != last);
                }
            }
        } else {
            assert(s.filter(p) == dl.filter(p));
        }
    }
}

/// One stored task row, without its tags.
pub struct TaskRow {
    pub id: i64,
    pub name: String,
    pub due_date: Option<Timestamp>,
    pub created_at: Timestamp,
    pub completed: bool,
    pub completed_at: Option<Timestamp>,
}

/// The mathematical value of a [`TaskRow`].
#[verifier::ext_equal]
pub ghost struct TaskRowModel {
    pub id: int,
    pub name: Seq<char>,
    pub due_date: Option<Timestamp>,
    pub created_at: Timestamp,
    pub completed: bool,
    pub completed_at: Option<Timestamp>,
}

impl View for TaskRow {
    type V = TaskRowModel;

    open spec fn view(&self) -> TaskRowModel {
        TaskRowModel {
            id: self.id as int,
            name: self.name@,
            due_date: self.due_date,
            created_at: self.created_at,
            completed: self.completed,
            completed_at: self.completed_at,
        }
    }
}

impl Clone for TaskRow {
    fn clone(&self) -> (r: Self)
        ensures
            r@ == self@,
    {
        TaskRow {
            id: self.id,
            name: self.name.clone(),
            due_date: self.due_date,
            created_at: self.created_at,
            completed: self.completed,
            completed_at: self.completed_at,
        }
    }
}

impl TaskRowModel {
    /// Row-local rules: a non-empty name, valid timestamps, and a
    /// completion time exactly on completed rows.
    pub open spec fn wf(self) -> bool {
        &&& self.name.len() > 0
        &&& self.created_at.valid()
        &&& (self.due_date matches Some(t) ==> t.valid())
        &&& (self.completed_at matches Some(t) ==> t.valid())
        &&& (self.completed_at is Some) == self.completed
    }
}

/// The mathematical value of the whole store.
#[verifier::ext_equal]
pub ghost struct StoreModel {
    pub tasks: Seq<TaskRowModel>,
    pub tags: Seq<TagModel>,
    pub links: Seq<(int, int)>,
    pub next_task_id: int,
    pub next_tag_id: int,
}

/// The state of a freshly created or reset store.
pub open spec fn empty_model() -> StoreModel {
    StoreModel {
        tasks: Seq::empty(),
        tags: Seq::empty(),
        links: Seq::empty(),
        next_task_id: 1,
        next_tag_id: 1,
    }
}

/// Keeps the links that are not exactly the pair `(a, b)`.
pub open spec fn not_pair(a: int, b: int) -> spec_fn((int, int)) -> bool {
    |l: (int, int)| l != (a, b)
}

/// Keeps the links that do not belong to task `id`.
pub open spec fn not_task_link(id: int) -> spec_fn((int, int)) -> bool {
    |l: (int, int)| l.0 != id
}

/// Keeps the links that do not reference tag `id`.
pub open spec fn not_tag_link(id: int) -> spec_fn((int, int)) -> bool {
    |l: (int, int)| l.1 != id
}

/// Keeps the task rows whose id is not `id`.
pub open spec fn not_task_row(id: int) -> spec_fn(TaskRowModel) -> bool {
    |t: TaskRowModel| t.id != id
}

/// The completed task rows.
pub open spec fn row_completed() -> spec_fn(TaskRowModel) -> bool {
    |t: TaskRowModel| t.completed
}

/// The task rows not yet completed.
pub open spec fn row_incomplete() -> spec_fn(TaskRowModel) -> bool {
    |t: TaskRowModel| !t.completed
}

/// The task rows whose due date lies in the closed window `[lo, hi]`.
pub open spec fn row_due_between(lo: Timestamp, hi: Timestamp) -> spec_fn(TaskRowModel) -> bool {
    |t: TaskRowModel|
        match t.due_date {
            Some(d) => lo.instant() <= d.instant() && d.instant() <= hi.instant(),
            None => false,
        }
}

/// The tags linked to task `task_id` under the link table `links`.
pub open spec fn linked_to(links: Seq<(int, int)>, task_id: int) -> spec_fn(TagModel) -> bool {
    |t: TagModel| links.contains((task_id, t.id))
}

impl StoreModel {
    /// Some task row carries id `id`.
    pub open spec fn has_task(self, id: int) -> bool {
        exists|i: int| 0 <= i < self.tasks.len() && (#[trigger] self.tasks[i]).id == id
    }

    /// The index of the task row with id `id` (meaningful only when
    /// [`StoreModel::has_task`] holds; under [`StoreModel::wf`] it is
    /// unique).
    pub open spec fn task_index(self, id: int) -> int {
        choose|i: int| 0 <= i < self.tasks.len() && (#[trigger] self.tasks[i]).id == id
    }

    /// The task row with id `id`.
    pub open spec fn task(self, id: int) -> TaskRowModel {
        self.tasks[self.task_index(id)]
    }

    /// Some tag carries id `id`.
    pub open spec fn has_tag(self, id: int) -> bool {
        exists|i: int| 0 <= i < self.tags.len() && (#[trigger] self.tags[i]).id == id
    }

    /// The index of the tag with id `id`.
    pub open spec fn tag_index(self, id: int) -> int {
        choose|i: int| 0 <= i < self.tags.len() && (#[trigger] self.tags[i]).id == id
    }

    /// Some tag carries name `name`.
    pub open spec fn has_tag_named(self, name: Seq<char>) -> bool {
        exists|i: int| 0 <= i < self.tags.len() && (#[trigger] self.tags[i]).name == name
    }

    /// The index of the tag named `name`.
    pub open spec fn tag_index_named(self, name: Seq<char>) -> int {
        choose|i: int| 0 <= i < self.tags.len() && (#[trigger] self.tags[i]).name == name
    }

    /// The tags linked to task `task_id`, in name order.
    pub open spec fn linked_tags(self, task_id: int) -> Seq<TagModel> {
        self.tags.filter(linked_to(self.links, task_id))
    }

    /// The aggregated tag list of task `task_id`: absent, not empty,
    /// when the task has no links.
    pub open spec fn agg_tags(self, task_id: int) -> Option<Seq<TagModel>> {
        if self.linked_tags(task_id).len() == 0 {
            None
        } else {
            Some(self.linked_tags(task_id))
        }
    }

    /// A task row assembled with its aggregated tag list.
    pub open spec fn agg(self, row: TaskRowModel) -> TaskModel {
        TaskModel {
            id: row.id,
            name: row.name,
            due_date: row.due_date,
            created_at: row.created_at,
            completed: row.completed,
            completed_at: row.completed_at,
            tags: self.agg_tags(row.id),
        }
    }

    /// The standing rules of the store's state.
    pub open spec fn wf(self) -> bool {
        &&& 1 <= self.next_task_id
        &&& 1 <= self.next_tag_id
        &&& forall|i: int, j: int|
            0 <= i < j < self.tasks.len() ==> (#[trigger] self.tasks[i]).id != (
            #[trigger] self.tasks[j]).id
        &&& forall|i: int|
            0 <= i < self.tasks.len() ==> 1 <= (#[trigger] self.tasks[i]).id < self.next_task_id
        &&& forall|i: int| 0 <= i < self.tasks.len() ==> (#[trigger] self.tasks[i]).wf()
        &&& forall|i: int, j: int|
            0 <= i < j < self.tags.len() ==> lex_lt(
                (#[trigger] self.tags[i]).name,
                (#[trigger] self.tags[j]).name,
            )
        &&& forall|i: int|
            0 <= i < self.tags.len() ==> 1 <= (#[trigger] self.tags[i]).id < self.next_tag_id
        &&& forall|i: int, j: int|
            0 <= i < j < self.tags.len() ==> (#[trigger] self.tags[i]).id != (
            #[trigger] self.tags[j]).id
        &&& forall|i: int, j: int|
            0 <= i < j < self.links.len() ==> (#[trigger] self.links[i]) != (
            #[trigger] self.links[j])
        &&& forall|i: int|
            0 <= i < self.links.len() ==> self.has_task((#[trigger] self.links[i]).0)
                && self.has_tag(self.links[i].1)
    }
}

/// The model after linking tag `b` to task `a`: unchanged when the
/// pair is already present.
pub open spec fn link_model(m: StoreModel, a: int, b: int) -> StoreModel {
    if m.links.contains((a, b)) {
        m
    } else {
        StoreModel { links: m.links.push((a, b)), ..m }
    }
}

/// The model after unlinking tag `b` from task `a`: every link but the
/// pair `(a, b)` survives.
pub open spec fn unlink_model(m: StoreModel, a: int, b: int) -> StoreModel {
    StoreModel { links: m.links.filter(not_pair(a, b)), ..m }
}

/// The tag table with `t` inserted at its place in name order.
pub open spec fn sorted_insert(tags: Seq<TagModel>, t: TagModel) -> Seq<TagModel>
    decreases tags.len(),
{
    if tags.len() == 0 {
        seq![t]
    } else if lex_lt(t.name, tags[0].name) {
        seq![t] + tags
    } else {
        seq![tags[0]] + sorted_insert(tags.drop_first(), t)
    }
}

/// When `pos` is the first index whose name follows `t.name`,
/// [`sorted_insert`] inserts exactly at `pos`.
proof fn lemma_sorted_insert_at(tags: Seq<TagModel>, t: TagModel, pos: int)
    requires
        0 <= pos <= tags.len(),
        forall|k: int| 0 <= k < pos ==> !lex_lt(t.name, (#[trigger] tags[k]).name),
        pos < tags.len() ==> lex_lt(t.name, tags[pos].name),
    ensures
        sorted_insert(tags, t) == tags.insert(pos, t),
    decreases tags.len(),
{
    if tags.len() == 0 {
        assert(sorted_insert(tags, t) =~= tags.insert(0, t));
    } else if lex_lt(t.name, tags[0].name) {
        assert(pos == 0);
        assert(sorted_insert(tags, t) =~= tags.insert(0, t));
    } else {
        assert(pos >= 1);
        let dl = tags.drop_first();
        assert(forall|k: int| 0 <= k < pos - 1 ==> dl[k] == tags[k + 1]);
        lemma_sorted_insert_at(dl, t, pos - 1);
        assert(seq![tags[0]] + dl.insert(pos - 1, t) =~= tags.insert(pos, t));
    }
}

/// The index holding id `id` is the unique one, so it is what
/// [`StoreModel::task_index`] picks.
proof fn lemma_task_index_is(m: StoreModel, id: int, i: int)
    requires
        m.wf(),
        0 <= i < m.tasks.len(),
        m.tasks[i].id == id,
    ensures
        m.has_task(id),
        m.task_index(id) == i,
{
    assert(m.has_task(id));
    let j = m.task_index(id);
    if j < i {
        assert(m.tasks[j].id != m.tasks[i].id);
    } else if j > i {
        assert(m.tasks[i].id != m.tasks[j].id);
    }
}

/// The index holding tag id `id` is the unique one, so it is what
/// [`StoreModel::tag_index`] picks.
proof fn lemma_tag_index_is(m: StoreModel, id: int, i: int)
    requires
        m.wf(),
        0 <= i < m.tags.len(),
        m.tags[i].id == id,
    ensures
        m.has_tag(id),
        m.tag_index(id) == i,
{
    assert(m.has_tag(id));
    let j = m.tag_index(id);
    if j < i {
        assert(m.tags[j].id != m.tags[i].id);
    } else if j > i {
        assert(m.tags[i].id != m.tags[j].id);
    }
}

/// The index holding tag name `name` is the unique one, so it is what
/// [`StoreModel::tag_index_named`] picks.
proof fn lemma_tag_index_named_is(m: StoreModel, name: Seq<char>, i: int)
    requires
        m.wf(),
        0 <= i < m.tags.len(),
        m.tags[i].name == name,
    ensures
        m.has_tag_named(name),
        m.tag_index_named(name) == i,
{
    assert(m.has_tag_named(name));
    let j = m.tag_index_named(name);
    if j != i {
        if j < i {
            assert(lex_lt(m.tags[j].name, m.tags[i].name));
        } else {
            assert(lex_lt(m.tags[i].name, m.tags[j].name));
        }
        lemma_lex_irreflexive(name);
    }
}

/// The model after adding a standalone tag: unchanged when the name is
/// already taken (the add is rejected), else the new tag enters the
/// table at its place in name order and the id counter advances.
pub open spec fn add_tag_model(m: StoreModel, name: Seq<char>, color: Seq<char>) -> StoreModel {
    if m.has_tag_named(name) {
        m
    } else {
        StoreModel {
            tags: sorted_insert(m.tags, TagModel { id: m.next_tag_id, name, color }),
            next_tag_id: m.next_tag_id + 1,
            ..m
        }
    }
}

/// The model after removing the tag named `name`: the tag leaves the
/// table and every link that referenced it leaves with it.  Unchanged
/// when no tag has that name.
pub open spec fn remove_tag_model(m: StoreModel, name: Seq<char>) -> StoreModel {
    if !m.has_tag_named(name) {
        m
    } else {
        let i = m.tag_index_named(name);
        StoreModel {
            tags: m.tags.remove(i),
            links: m.links.filter(not_tag_link(m.tags[i].id)),
            ..m
        }
    }
}

/// The model after recoloring tag `tag_id`: only that tag's color
/// changes.  Unchanged when the id is unknown.
pub open spec fn update_color_model(m: StoreModel, tag_id: int, color: Seq<char>) -> StoreModel {
    if !m.has_tag(tag_id) {
        m
    } else {
        let i = m.tag_index(tag_id);
        StoreModel {
            tags: m.tags.update(i, TagModel { color, ..m.tags[i] }),
            ..m
        }
    }
}

/// Aggregates a row under the store model `m`.
pub open spec fn agg_of(m: StoreModel) -> spec_fn(TaskRowModel) -> TaskModel {
    |row: TaskRowModel| m.agg(row)
}

/// The model after completing task `id`: the first completion stamps
/// `completed_at` with `now`; completing an already completed task
/// changes nothing.  Unchanged when the id is unknown.
pub open spec fn complete_model(m: StoreModel, id: int, now: Timestamp) -> StoreModel {
    if !m.has_task(id) {
        m
    } else {
        let i = m.task_index(id);
        if m.tasks[i].completed {
            m
        } else {
            StoreModel {
                tasks: m.tasks.update(
                    i,
                    TaskRowModel { completed: true, completed_at: Some(now), ..m.tasks[i] },
                ),
                ..m
            }
        }
    }
}

/// The model after renaming task `id`.  Unchanged when the id is
/// unknown.
pub open spec fn update_name_model(m: StoreModel, id: int, name: Seq<char>) -> StoreModel {
    if !m.has_task(id) {
        m
    } else {
        let i = m.task_index(id);
        StoreModel { tasks: m.tasks.update(i, TaskRowModel { name, ..m.tasks[i] }), ..m }
    }
}

/// The model after changing the due date of task `id`.  Unchanged when
/// the id is unknown.
pub open spec fn update_due_model(m: StoreModel, id: int, due: Option<Timestamp>) -> StoreModel {
    if !m.has_task(id) {
        m
    } else {
        let i = m.task_index(id);
        StoreModel {
            tasks: m.tasks.update(i, TaskRowModel { due_date: due, ..m.tasks[i] }),
            ..m
        }
    }
}

/// The model after deleting task `id`: the row leaves the table and
/// every link of the task leaves with it.  Deleting an unknown id
/// changes nothing.
pub open spec fn delete_model(m: StoreModel, id: int) -> StoreModel {
    StoreModel {
        tasks: m.tasks.filter(not_task_row(id)),
        links: m.links.filter(not_task_link(id)),
        ..m
    }
}

/// The model after one step of task creation's tag handling: the tag
/// named `nt.name` is upserted — created with a fresh id, or its color
/// updated in place — and then linked to task `task_id` unless that
/// link already exists.
pub open spec fn upsert_one(m: StoreModel, task_id: int, nt: NewTagModel) -> StoreModel {
    let m1 = if m.has_tag_named(nt.name) {
        let i = m.tag_index_named(nt.name);
        StoreModel { tags: m.tags.update(i, TagModel { color: nt.color, ..m.tags[i] }), ..m }
    } else {
        StoreModel {
            tags: sorted_insert(
                m.tags,
                TagModel { id: m.next_tag_id, name: nt.name, color: nt.color },
            ),
            next_tag_id: m.next_tag_id + 1,
            ..m
        }
    };
    let tid = if m.has_tag_named(nt.name) {
        m.tags[m.tag_index_named(nt.name)].id
    } else {
        m.next_tag_id
    };
    if m1.links.contains((task_id, tid)) {
        m1
    } else {
        StoreModel { links: m1.links.push((task_id, tid)), ..m1 }
    }
}

/// [`upsert_one`] folded over a list of supplied tags, left to right.
pub open spec fn upsert_fold(m: StoreModel, task_id: int, tags: Seq<NewTagModel>) -> StoreModel
    decreases tags.len(),
{
    if tags.len() == 0 {
        m
    } else {
        upsert_fold(upsert_one(m, task_id, tags[0]), task_id, tags.drop_first())
    }
}

/// Folding over one more tag is one more upsert at the end.
proof fn lemma_upsert_fold_push(
    m: StoreModel,
    task_id: int,
    tags: Seq<NewTagModel>,
    x: NewTagModel,
)
    ensures
        upsert_fold(m, task_id, tags.push(x)) == upsert_one(
            upsert_fold(m, task_id, tags),
            task_id,
            x,
        ),
    decreases tags.len(),
{
    if tags.len() == 0 {
        assert(tags.push(x)[0] == x);
        assert(tags.push(x).drop_first() =~= Seq::<NewTagModel>::empty());
        assert(upsert_fold(upsert_one(m, task_id, x), task_id, Seq::<NewTagModel>::empty())
            == upsert_one(m, task_id, x));
        assert(upsert_fold(m, task_id, Seq::<NewTagModel>::empty()) == m);
    } else {
        assert(tags.push(x)[0] == tags[0]);
        assert(tags.push(x).drop_first() =~= tags.drop_first().push(x));
        lemma_upsert_fold_push(upsert_one(m, task_id, tags[0]), task_id, tags.drop_first(), x);
        assert(upsert_fold(m, task_id, tags.push(x)) == upsert_fold(
            upsert_one(m, task_id, tags[0]),
            task_id,
            tags.drop_first().push(x),
        ));
        assert(upsert_fold(m, task_id, tags) == upsert_fold(
            upsert_one(m, task_id, tags[0]),
            task_id,
            tags.drop_first(),
        ));
    }
}

/// The views of a supplied tag list; the absent list means no tags.
pub open spec fn new_tags_seq(tags: Option<Vec<NewTag>>) -> Seq<NewTagModel> {
    match tags {
        Some(v) => v@.map_values(|t: NewTag| t@),
        None => Seq::empty(),
    }
}

/// The model after creating a task: the row enters the table with the
/// next task id and `created_at = now`, not completed; then each
/// supplied tag is upserted by name and linked to the new task.  This
/// is the whole transaction — it either happens entirely or, on a
/// rejected input, not at all.
pub open spec fn create_model(
    m: StoreModel,
    name: Seq<char>,
    due: Option<Timestamp>,
    tags: Seq<NewTagModel>,
    now: Timestamp,
) -> StoreModel {
    let row = TaskRowModel {
        id: m.next_task_id,
        name,
        due_date: due,
        created_at: now,
        completed: false,
        completed_at: None,
    };
    let m1 = StoreModel { tasks: m.tasks.push(row), next_task_id: m.next_task_id + 1, ..m };
    upsert_fold(m1, m.next_task_id, tags)
}

/// A model whose task rows kept their ids and stayed well-formed, and
/// whose other fields are untouched, is still well-formed.
proof fn lemma_wf_tasks_pointwise(m: StoreModel, m2: StoreModel)
    requires
        m.wf(),
        m2.tags == m.tags,
        m2.links == m.links,
        m2.next_task_id == m.next_task_id,
        m2.next_tag_id == m.next_tag_id,
        m2.tasks.len() == m.tasks.len(),
        forall|k: int| 0 <= k < m.tasks.len() ==> (#[trigger] m2.tasks[k]).id == m.tasks[k].id,
        forall|k: int| 0 <= k < m.tasks.len() ==> (#[trigger] m2.tasks[k]).wf(),
    ensures
        m2.wf(),
{
    assert forall|i: int|
        0 <= i < m2.links.len() implies m2.has_task((#[trigger] m2.links[i]).0) && m2.has_tag(
        m2.links[i].1,
    ) by {
        assert(m.has_task((#[trigger] m.links[i]).0) && m.has_tag(m.links[i].1));
        let w = choose|w: int|
            0 <= w < m.tasks.len() && (#[trigger] m.tasks[w]).id == m.links[i].0;
        assert(m2.tasks[w].id == m.links[i].0);
    }
}

/// The model that given persisted rows would form.
pub open spec fn rows_model(
    tasks: Seq<TaskRow>,
    tags: Seq<Tag>,
    links: Seq<(i64, i64)>,
    next_task_id: i64,
    next_tag_id: i64,
) -> StoreModel {
    StoreModel {
        tasks: tasks.map_values(|t: TaskRow| t@),
        tags: tags.map_values(|t: Tag| t@),
        links: links.map_values(|l: (i64, i64)| (l.0 as int, l.1 as int)),
        next_task_id: next_task_id as int,
        next_tag_id: next_tag_id as int,
    }
}

/// Whether some row of `tasks` carries id `id`.
fn vec_has_task_id(tasks: &Vec<TaskRow>, id: i64) -> (r: bool)
    ensures
        r == exists|i: int| 0 <= i < tasks@.len() && (#[trigger] tasks@[i])@.id == id as int,
{
    let mut i: usize = 0;
    while i < tasks.len()
        invariant
            i <= tasks.len(),
            forall|k: int| 0 <= k < i ==> (#[trigger] tasks@[k])@.id != id as int,
        decreases tasks.len() - i,
    {
        if tasks[i].id == id {
            return true;
        }
        i = i + 1;
    }
    false
}

/// Whether some tag of `tags` carries id `id`.
fn vec_has_tag_id(tags: &Vec<Tag>, id: i64) -> (r: bool)
    ensures
        r == exists|i: int| 0 <= i < tags@.len() && (#[trigger] tags@[i])@.id == id as int,
{
    let mut i: usize = 0;
    while i < tags.len()
        invariant
            i <= tags.len(),
            forall|k: int| 0 <= k < i ==> (#[trigger] tags@[k])@.id != id as int,
        decreases tags.len() - i,
    {
        if tags[i].id == id {
            return true;
        }
        i = i + 1;
    }
    false
}

/// The store.  Fields are reached only through the verified
/// operations, which maintain [`StoreModel::wf`].
pub struct Store {
    tasks: Vec<TaskRow>,
    tags: Vec<Tag>,
    links: Vec<(i64, i64)>,
    next_task_id: i64,
    next_tag_id: i64,
}

impl View for Store {
    type V = StoreModel;

    closed spec fn view(&self) -> StoreModel {
        StoreModel {
            tasks: self.tasks@.map_values(|r: TaskRow| r@),
            tags: self.tags@.map_values(|t: Tag| t@),
            links: self.links@.map_values(|l: (i64, i64)| (l.0 as int, l.1 as int)),
            next_task_id: self.next_task_id as int,
            next_tag_id: self.next_tag_id as int,
        }
    }
}

impl Store {
    /// A fresh store with no tasks, no tags and no links.
    pub fn new() -> (r: Store)
        ensures
            r@ == empty_model(),
            r@.wf(),
    {
        let s = Store {
            tasks: Vec::new(),
            tags: Vec::new(),
            links: Vec::new(),
            next_task_id: 1,
            next_tag_id: 1,
        };
        proof {
            assert(s@ =~= empty_model());
        }
        s
    }

    /// Drops every row and link and restarts the id counters: the full
    /// reset, after which all listings are empty.
    pub fn reset(&mut self)
        ensures
            final(self)@ == empty_model(),
            final(self)@.wf(),
    {
        self.tasks = Vec::new();
        self.tags = Vec::new();
        self.links = Vec::new();
        self.next_task_id = 1;
        self.next_tag_id = 1;
        proof {
            assert(self@ =~= empty_model());
        }
    }

    /// Rebuilds a store from persisted rows, checking every standing
    /// rule of the state: id counters at least one, ids in range and
    /// unique, task rows well-formed, the tag table strictly sorted by
    /// name, links unique and referencing existing rows.  Rows that
    /// break a rule — a corrupt store file — are rejected as a
    /// constraint violation, and exactly those.
    #[verifier::rlimit(80)]
    #[verifier::spinoff_prover]
    pub fn from_rows(
        tasks: Vec<TaskRow>,
        tags: Vec<Tag>,
        links: Vec<(i64, i64)>,
        next_task_id: i64,
        next_tag_id: i64,
    ) -> (r: Result<Store, TaskError>)
        ensures
            ({
                let m = rows_model(tasks@, tags@, links@, next_task_id, next_tag_id);
                match r {
                    Ok(s) => s@ == m && m.wf(),
                    Err(e) => (e matches TaskError::ConstraintViolation) && !m.wf(),
                }
            }),
    {
        let ghost m = rows_model(tasks@, tags@, links@, next_task_id, next_tag_id);
        if next_task_id < 1 || next_tag_id < 1 {
            return Err(TaskError::ConstraintViolation);
        }
        let mut i: usize = 0;
        while i < tasks.len()
            invariant
                i <= tasks.len(),
                m == rows_model(tasks@, tags@, links@, next_task_id, next_tag_id),
                forall|k: int|
                    0 <= k < i ==> 1 <= (#[trigger] m.tasks[k]).id < m.next_task_id
                        && m.tasks[k].wf(),
            decreases tasks.len() - i,
        {
            let due_ok = match &tasks[i].due_date {
                Some(d) => d.is_valid(),
                None => true,
            };
            let comp_ok = match &tasks[i].completed_at {
                Some(c) => c.is_valid(),
                None => true,
            };
            let ok = tasks[i].id >= 1 && tasks[i].id < next_task_id
                && !tasks[i].name.as_str().is_empty() && tasks[i].created_at.is_valid() && due_ok
                && comp_ok && (tasks[i].completed_at.is_some() == tasks[i].completed);
            if !ok {
                proof {
                    assert(!(1 <= m.tasks[i as int].id < m.next_task_id) || !m.tasks[
                        i as int].wf());
                }
                return Err(TaskError::ConstraintViolation);
            }
            i = i + 1;
        }
        let mut a: usize = 0;
        while a < tasks.len()
            invariant
                a <= tasks.len(),
                m == rows_model(tasks@, tags@, links@, next_task_id, next_tag_id),
                forall|x: int, y: int|
                    0 <= x < y < m.tasks.len() && x < a ==> (#[trigger] m.tasks[x]).id != (
                    #[trigger] m.tasks[y]).id,
            decreases tasks.len() - a,
        {
            let mut b: usize = a + 1;
            while b < tasks.len()
                invariant
                    a < tasks.len(),
                    a < b <= tasks.len(),
                    m == rows_model(tasks@, tags@, links@, next_task_id, next_tag_id),
                    forall|y: int| a < y < b ==> m.tasks[a as int].id != (#[trigger] m.tasks[y]).id,
                decreases tasks.len() - b,
            {
                if tasks[a].id == tasks[b].id {
                    proof {
                        assert(m.tasks[a as int].id == m.tasks[b as int].id);
                    }
                    return Err(TaskError::ConstraintViolation);
                }
                b = b + 1;
            }
            a = a + 1;
        }
        let mut i: usize = 0;
        while i < tags.len()
            invariant
                i <= tags.len(),
                m == rows_model(tasks@, tags@, links@, next_task_id, next_tag_id),
                forall|k: int|
                    0 <= k < i ==> 1 <= (#[trigger] m.tags[k]).id < m.next_tag_id,
            decreases tags.len() - i,
        {
            if !(tags[i].id >= 1 && tags[i].id < next_tag_id) {
                proof {
                    assert(m.tags[i as int] == tags@[i as int]@);
                    assert(!(1 <= m.tags[i as int].id < m.next_tag_id));
                    assert(!m.wf());
                }
                return Err(TaskError::ConstraintViolation);
            }
            i = i + 1;
        }
        let mut a: usize = 0;
        while a < tags.len()
            invariant
                a <= tags.len(),
                m == rows_model(tasks@, tags@, links@, next_task_id, next_tag_id),
                forall|x: int, y: int|
                    0 <= x < y < m.tags.len() && x < a ==> (#[trigger] m.tags[x]).id != (
                    #[trigger] m.tags[y]).id && lex_lt(m.tags[x].name, m.tags[y].name),
            decreases tags.len() - a,
        {
            let mut b: usize = a + 1;
            while b < tags.len()
                invariant
                    a < tags.len(),
                    a < b <= tags.len(),
                    m == rows_model(tasks@, tags@, links@, next_task_id, next_tag_id),
                    forall|y: int|
                        a < y < b ==> m.tags[a as int].id != (#[trigger] m.tags[y]).id && lex_lt(
                            m.tags[a as int].name,
                            m.tags[y].name,
                        ),
                decreases tags.len() - b,
            {
                let ok = tags[a].id != tags[b].id && str_lt(
                    tags[a].name.as_str(),
                    tags[b].name.as_str(),
                );
                if !ok {
                    proof {
                        assert(m.tags[a as int] == tags@[a as int]@);
                        assert(m.tags[b as int] == tags@[b as int]@);
                        assert(m.tags[a as int].id == m.tags[b as int].id || !lex_lt(
                            m.tags[a as int].name,
                            m.tags[b as int].name,
                        ));
                        assert(!m.wf());
                    }
                    return Err(TaskError::ConstraintViolation);
                }
                b = b + 1;
            }
            a = a + 1;
        }
        let mut a: usize = 0;
        while a < links.len()
            invariant
                a <= links.len(),
                m == rows_model(tasks@, tags@, links@, next_task_id, next_tag_id),
                forall|x: int, y: int|
                    0 <= x < y < m.links.len() && x < a ==> (#[trigger] m.links[x]) != (
                    #[trigger] m.links[y]),
            decreases links.len() - a,
        {
            let mut b: usize = a + 1;
            while b < links.len()
                invariant
                    a < links.len(),
                    a < b <= links.len(),
                    m == rows_model(tasks@, tags@, links@, next_task_id, next_tag_id),
                    forall|y: int| a < y < b ==> m.links[a as int] != (#[trigger] m.links[y]),
                decreases links.len() - b,
            {
                let la = links[a];
                let lb = links[b];
                if la.0 == lb.0 && la.1 == lb.1 {
                    proof {
                        assert(m.links[a as int] == m.links[b as int]);
                        assert(!m.wf());
                    }
                    return Err(TaskError::ConstraintViolation);
                }
                proof {
                    assert(m.links[a as int] == (la.0 as int, la.1 as int));
                    assert(m.links[b as int] == (lb.0 as int, lb.1 as int));
                }
                b = b + 1;
            }
            a = a + 1;
        }
        let mut k: usize = 0;
        while k < links.len()
            invariant
                k <= links.len(),
                m == rows_model(tasks@, tags@, links@, next_task_id, next_tag_id),
                forall|x: int|
                    0 <= x < k ==> m.has_task((#[trigger] m.links[x]).0) && m.has_tag(
                        m.links[x].1,
                    ),
            decreases links.len() - k,
        {
            let l = links[k];
            proof {
                assert(m.links[k as int] == (l.0 as int, l.1 as int));
            }
            let task_found = vec_has_task_id(&tasks, l.0);
            proof {
                assert forall|y: int| 0 <= y < m.tasks.len() implies ((#[trigger] m.tasks[y]).id
                    == l.0 as int <==> tasks@[y]@.id == l.0 as int) by {
                    assert(m.tasks[y] == tasks@[y]@);
                }
            }
            if !task_found {
                proof {
                    assert(!m.has_task(m.links[k as int].0));
                    assert(!m.wf());
                }
                return Err(TaskError::ConstraintViolation);
            }
            let tag_found = vec_has_tag_id(&tags, l.1);
            proof {
                assert forall|y: int| 0 <= y < m.tags.len() implies ((#[trigger] m.tags[y]).id
                    == l.1 as int <==> tags@[y]@.id == l.1 as int) by {
                    assert(m.tags[y] == tags@[y]@);
                }
            }
            if !tag_found {
                proof {
                    assert(!m.has_tag(m.links[k as int].1));
                    assert(!m.wf());
                }
                return Err(TaskError::ConstraintViolation);
            }
            proof {
                let w = choose|w: int| 0 <= w < tasks@.len() && (#[trigger] tasks@[w])@.id == l.0 as int;
                assert(m.tasks[w].id == l.0 as int);
                let v = choose|v: int| 0 <= v < tags@.len() && (#[trigger] tags@[v])@.id == l.1 as int;
                assert(m.tags[v].id == l.1 as int);
            }
            k = k + 1;
        }
        let s = Store { tasks, tags, links, next_task_id, next_tag_id };
        proof {
            assert(s@ =~= m);
            assert(m.wf());
        }
        Ok(s)
    }

    /// The index of the task row with id `id`, if any.
    fn find_task(&self, id: i64) -> (r: Option<usize>)
        ensures
            match r {
                Some(i) => i < self@.tasks.len() && self@.tasks[i as int].id == id as int,
                None => !self@.has_task(id as int),
            },
    {
        let mut i: usize = 0;
        while i < self.tasks.len()
            invariant
                i <= self.tasks.len(),
                forall|k: int| 0 <= k < i ==> (#[trigger] self@.tasks[k]).id != id as int,
            decreases self.tasks.len() - i,
        {
            if self.tasks[i].id == id {
                return Some(i);
            }
            i = i + 1;
        }
        None
    }

    /// The index of the tag with id `id`, if any.
    fn find_tag(&self, id: i64) -> (r: Option<usize>)
        ensures
            match r {
                Some(i) => i < self@.tags.len() && self@.tags[i as int].id == id as int,
                None => !self@.has_tag(id as int),
            },
    {
        let mut i: usize = 0;
        while i < self.tags.len()
            invariant
                i <= self.tags.len(),
                forall|k: int| 0 <= k < i ==> (#[trigger] self@.tags[k]).id != id as int,
            decreases self.tags.len() - i,
        {
            if self.tags[i].id == id {
                return Some(i);
            }
            i = i + 1;
        }
        None
    }

    /// The index of the tag named `name`, if any.
    fn find_tag_named(&self, name: &String) -> (r: Option<usize>)
        ensures
            match r {
                Some(i) => i < self@.tags.len() && self@.tags[i as int].name == name@,
                None => !self@.has_tag_named(name@),
            },
    {
        let mut i: usize = 0;
        while i < self.tags.len()
            invariant
                i <= self.tags.len(),
                forall|k: int| 0 <= k < i ==> (#[trigger] self@.tags[k]).name != name@,
            decreases self.tags.len() - i,
        {
            if self.tags[i].name == *name {
                return Some(i);
            }
            i = i + 1;
        }
        None
    }

    /// Whether the pair `(task_id, tag_id)` is linked.
    fn has_link(&self, task_id: i64, tag_id: i64) -> (r: bool)
        ensures
            r == self@.links.contains((task_id as int, tag_id as int)),
    {
        let mut i: usize = 0;
        while i < self.links.len()
            invariant
                i <= self.links.len(),
                forall|k: int|
                    0 <= k < i ==> (#[trigger] self@.links[k]) != (task_id as int, tag_id as int),
            decreases self.links.len() - i,
        {
            let l = self.links[i];
            if l.0 == task_id && l.1 == tag_id {
                proof {
                    assert(self@.links[i as int] == (task_id as int, tag_id as int));
                }
                return true;
            }
            i = i + 1;
        }
        false
    }

    /// Links tag `tag_id` to task `task_id`.  Linking an already
    /// linked pair is a silent no-op; a missing task or tag is a
    /// constraint violation and leaves the store unchanged.
    pub fn link(&mut self, task_id: i64, tag_id: i64) -> (r: Result<(), TaskError>)
        requires
            old(self)@.wf(),
        ensures
            final(self)@.wf(),
            match r {
                Ok(()) => {
                    &&& old(self)@.has_task(task_id as int)
                    &&& old(self)@.has_tag(tag_id as int)
                    &&& final(self)@ == link_model(old(self)@, task_id as int, tag_id as int)
                },
                Err(e) => {
                    &&& final(self)@ == old(self)@
                    &&& e matches TaskError::ConstraintViolation
                    &&& !(old(self)@.has_task(task_id as int) && old(self)@.has_tag(
                        tag_id as int,
                    ))
                },
            },
    {
        if self.find_task(task_id).is_none() {
            return Err(TaskError::ConstraintViolation);
        }
        if self.find_tag(tag_id).is_none() {
            return Err(TaskError::ConstraintViolation);
        }
        if !self.has_link(task_id, tag_id) {
            let ghost m = self@;
            self.links.push((task_id, tag_id));
            proof {
                assert(self@.links =~= m.links.push((task_id as int, tag_id as int)));
                assert(self@ =~= link_model(m, task_id as int, tag_id as int));
                assert forall|i: int, j: int|
                    0 <= i < j < self@.links.len() implies (#[trigger] self@.links[i]) != (
                #[trigger] self@.links[j]) by {
                    if j == self@.links.len() - 1 {
                        assert(self@.links[i] == m.links[i]);
                    }
                }
                assert forall|i: int|
                    0 <= i < self@.links.len() implies self@.has_task(
                    (#[trigger] self@.links[i]).0,
                ) && self@.has_tag(self@.links[i].1) by {
                    assert(self@.tasks =~= m.tasks);
                    assert(self@.tags =~= m.tags);
                    if i < self@.links.len() - 1 {
                        assert(self@.links[i] == m.links[i]);
                    }
                }
            }
        }
        Ok(())
    }

    /// Unlinks tag `tag_id` from task `task_id`.  Unlinking a pair
    /// that is not linked is a silent no-op.
    pub fn unlink(&mut self, task_id: i64, tag_id: i64) -> (r: Result<(), TaskError>)
        requires
            old(self)@.wf(),
        ensures
            final(self)@.wf(),
            r is Ok,
            final(self)@ == unlink_model(old(self)@, task_id as int, tag_id as int),
    {
        let ghost m = self@;
        let ghost p = not_pair(task_id as int, tag_id as int);
        let mut kept: Vec<(i64, i64)> = Vec::new();
        let mut i: usize = 0;
        while i < self.links.len()
            invariant
                i <= self.links.len(),
                m == self@,
                kept@.map_values(|l: (i64, i64)| (l.0 as int, l.1 as int)) =~= m.links.take(
                    i as int,
                ).filter(p),
                p == not_pair(task_id as int, tag_id as int),
            decreases self.links.len() - i,
        {
            let l = self.links[i];
            proof {
                assert(m.links[i as int] == (l.0 as int, l.1 as int));
            }
            if !(l.0 == task_id && l.1 == tag_id) {
                kept.push(l);
            }
            i = i + 1;
        }
        proof {
            assert(m.links.take(m.links.len() as int) == m.links);
        }
        self.links = kept;
        proof {
            assert(self@ =~= unlink_model(m, task_id as int, tag_id as int));
            lemma_filter_distinct(m.links, p);
            assert forall|i: int|
                0 <= i < self@.links.len() implies self@.has_task((#[trigger] self@.links[i]).0)
                && self@.has_tag(self@.links[i].1) by {
                let e = self@.links[i];
                assert(m.links.filter(p).contains(e));
                m.links.lemma_filter_contains_rev(p, e);
                let k = choose|k: int| 0 <= k < m.links.len() && m.links[k] == e;
                assert(m.has_task((#[trigger] m.links[k]).0) && m.has_tag(m.links[k].1));
                assert(self@.tasks == m.tasks);
                assert(self@.tags == m.tags);
            }
        }
        Ok(())
    }

    /// How many tasks are completed.
    pub fn count_completed(&self) -> (r: u64)
        requires
            self@.wf(),
        ensures
            r as int == self@.tasks.filter(row_completed()).len(),
    {
        let mut count: u64 = 0;
        let mut i: usize = 0;
        while i < self.tasks.len()
            invariant
                i <= self.tasks.len(),
                count as int == self@.tasks.take(i as int).filter(row_completed()).len(),
                count <= i,
            decreases self.tasks.len() - i,
        {
            if self.tasks[i].completed {
                count = count + 1;
            }
            i = i + 1;
        }
        proof {
            assert(self@.tasks.take(self@.tasks.len() as int) == self@.tasks);
        }
        count
    }

    /// The first index whose tag name follows `name`, i.e. the place
    /// where `name` belongs in the name-sorted tag table.
    fn insert_pos(&self, name: &String) -> (r: usize)
        ensures
            r <= self@.tags.len(),
            forall|k: int| 0 <= k < r ==> !lex_lt(name@, (#[trigger] self@.tags[k]).name),
            r < self@.tags.len() ==> lex_lt(name@, self@.tags[r as int].name),
    {
        let mut i: usize = 0;
        while i < self.tags.len()
            invariant
                i <= self.tags.len(),
                forall|k: int| 0 <= k < i ==> !lex_lt(name@, (#[trigger] self@.tags[k]).name),
            decreases self.tags.len() - i,
        {
            if str_lt(name.as_str(), self.tags[i].name.as_str()) {
                return i;
            }
            i = i + 1;
        }
        i
    }

    /// Adds a standalone tag.  A tag whose name is already taken is
    /// rejected as a constraint violation (the store is unchanged);
    /// otherwise the new tag, with a fresh id, is returned.
    #[verifier::rlimit(80)]
    #[verifier::spinoff_prover]
    pub fn add_tag(&mut self, new_tag: NewTag) -> (r: Result<Tag, TaskError>)
        requires
            old(self)@.wf(),
            old(self)@.next_tag_id < i64::MAX,
        ensures
            final(self)@.wf(),
            final(self)@ == add_tag_model(old(self)@, new_tag.name@, new_tag.color@),
            match r {
                Ok(tag) => {
                    &&& !old(self)@.has_tag_named(new_tag.name@)
                    &&& tag@ == (TagModel {
                        id: old(self)@.next_tag_id,
                        name: new_tag.name@,
                        color: new_tag.color@,
                    })
                },
                Err(e) => {
                    &&& old(self)@.has_tag_named(new_tag.name@)
                    &&& e matches TaskError::ConstraintViolation
                },
            },
    {
        if self.find_tag_named(&new_tag.name).is_some() {
            return Err(TaskError::ConstraintViolation);
        }
        let ghost m = self@;
        let pos = self.insert_pos(&new_tag.name);
        let tag = Tag {
            id: self.next_tag_id,
            name: new_tag.name.clone(),
            color: new_tag.color.clone(),
        };
        let stored = tag.clone();
        self.tags.insert(pos, stored);
        self.next_tag_id = self.next_tag_id + 1;
        proof {
            broadcast use vstd::seq_lib::group_seq_properties;

            let rec = TagModel { id: m.next_tag_id, name: new_tag.name@, color: new_tag.color@ };
            lemma_sorted_insert_at(m.tags, rec, pos as int);
            assert(self@.tags =~= m.tags.insert(pos as int, rec));
            assert(self@ =~= add_tag_model(m, new_tag.name@, new_tag.color@));
            assert(forall|k: int| 0 <= k < m.tags.len() ==> (#[trigger] m.tags[k]).name
                != new_tag.name@);
            assert forall|i: int, j: int|
                0 <= i < j < self@.tags.len() implies lex_lt(
                (#[trigger] self@.tags[i]).name,
                (#[trigger] self@.tags[j]).name,
            ) && self@.tags[i].id != self@.tags[j].id by {
                if i == pos {
                    if j > pos {
                        assert(self@.tags[j] == m.tags[j - 1]);
                        if j - 1 > pos {
                            lemma_lex_transitive(rec.name, m.tags[pos as int].name, m.tags[j
                                - 1].name);
                        }
                    }
                } else if j == pos {
                    assert(self@.tags[i] == m.tags[i]);
                    if !lex_lt(m.tags[i].name, rec.name) {
                        lemma_lex_connected(rec.name, m.tags[i].name);
                    }
                } else {
                    assert(self@.tags[i] == if i < pos {
                        m.tags[i]
                    } else {
                        m.tags[i - 1]
                    });
                    assert(self@.tags[j] == if j < pos {
                        m.tags[j]
                    } else {
                        m.tags[j - 1]
                    });
                }
            }
            assert forall|i: int|
                0 <= i < self@.links.len() implies self@.has_task((#[trigger] self@.links[i]).0)
                && self@.has_tag(self@.links[i].1) by {
                assert(m.has_task(m.links[i].0) && m.has_tag(m.links[i].1));
                let k = m.tag_index(m.links[i].1);
                if k < pos {
                    assert(self@.tags[k] == m.tags[k]);
                } else {
                    assert(self@.tags[k + 1] == m.tags[k]);
                }
            }
        }
        Ok(tag)
    }

    /// Removes the tag named `name`, together with every link that
    /// referenced it.  An unknown name is a not-found error.
    #[verifier::rlimit(80)]
    #[verifier::spinoff_prover]
    pub fn remove_tag(&mut self, name: &String) -> (r: Result<(), TaskError>)
        requires
            old(self)@.wf(),
        ensures
            final(self)@.wf(),
            final(self)@ == remove_tag_model(old(self)@, name@),
            r is Ok <==> old(self)@.has_tag_named(name@),
            r matches Err(e) ==> e matches TaskError::NotFound,
    {
        let i = match self.find_tag_named(name) {
            Some(i) => i,
            None => {
                return Err(TaskError::NotFound);
            },
        };
        let ghost m = self@;
        let tid = self.tags[i].id;
        proof {
            lemma_tag_index_named_is(m, name@, i as int);
            assert(tid as int == m.tags[i as int].id);
        }
        let mut kept: Vec<(i64, i64)> = Vec::new();
        let mut j: usize = 0;
        while j < self.links.len()
            invariant
                j <= self.links.len(),
                m == self@,
                tid as int == m.tags[i as int].id,
                kept@.map_values(|l: (i64, i64)| (l.0 as int, l.1 as int)) =~= m.links.take(
                    j as int,
                ).filter(not_tag_link(tid as int)),
            decreases self.links.len() - j,
        {
            let l = self.links[j];
            proof {
                assert(m.links[j as int] == (l.0 as int, l.1 as int));
            }
            if l.1 != tid {
                kept.push(l);
            }
            j = j + 1;
        }
        proof {
            assert(m.links.take(m.links.len() as int) == m.links);
        }
        self.links = kept;
        self.tags.remove(i);
        proof {
            broadcast use vstd::seq_lib::group_seq_properties;

            let p = not_tag_link(tid as int);
            assert(self@.tags =~= m.tags.remove(i as int));
            assert(self@ =~= remove_tag_model(m, name@));
            lemma_filter_distinct(m.links, p);
            assert forall|a: int, b: int|
                0 <= a < b < self@.tags.len() implies lex_lt(
                (#[trigger] self@.tags[a]).name,
                (#[trigger] self@.tags[b]).name,
            ) && self@.tags[a].id != self@.tags[b].id by {
                assert(self@.tags[a] == if a < i as int {
                    m.tags[a]
                } else {
                    m.tags[a + 1]
                });
                assert(self@.tags[b] == if b < i as int {
                    m.tags[b]
                } else {
                    m.tags[b + 1]
                });
            }
            assert forall|k: int|
                0 <= k < self@.links.len() implies self@.has_task((#[trigger] self@.links[k]).0)
                && self@.has_tag(self@.links[k].1) by {
                let e = self@.links[k];
                assert(m.links.filter(p).contains(e));
                m.links.lemma_filter_contains_rev(p, e);
                let w = choose|w: int| 0 <= w < m.links.len() && m.links[w] == e;
                assert(m.has_task((#[trigger] m.links[w]).0) && m.has_tag(m.links[w].1));
                assert(self@.tasks == m.tasks);
                let ti = m.tag_index(e.1);
                assert(m.tags[ti].id == e.1);
                assert(ti != i as int);
                if ti < i as int {
                    assert(self@.tags[ti] == m.tags[ti]);
                } else {
                    assert(self@.tags[ti - 1] == m.tags[ti]);
                }
            }
        }
        Ok(())
    }

    /// Changes the color of tag `tag_id`.  An unknown id is a
    /// not-found error.
    pub fn update_tag_color(&mut self, tag_id: i64, color: String) -> (r: Result<(), TaskError>)
        requires
            old(self)@.wf(),
        ensures
            final(self)@.wf(),
            final(self)@ == update_color_model(old(self)@, tag_id as int, color@),
            r is Ok <==> old(self)@.has_tag(tag_id as int),
            r matches Err(e) ==> e matches TaskError::NotFound,
    {
        let i = match self.find_tag(tag_id) {
            Some(i) => i,
            None => {
                return Err(TaskError::NotFound);
            },
        };
        let ghost m = self@;
        proof {
            lemma_tag_index_is(m, tag_id as int, i as int);
        }
        let name = self.tags[i].name.clone();
        let id = self.tags[i].id;
        self.tags.set(i, Tag { id, name, color });
        proof {
            let rec = TagModel { color: self@.tags[i as int].color, ..m.tags[i as int] };
            assert(self@.tags =~= m.tags.update(i as int, rec));
            assert(self@ =~= update_color_model(m, tag_id as int, self@.tags[i as int].color));
            assert forall|a: int, b: int|
                0 <= a < b < self@.tags.len() implies lex_lt(
                (#[trigger] self@.tags[a]).name,
                (#[trigger] self@.tags[b]).name,
            ) && self@.tags[a].id != self@.tags[b].id by {
                assert(self@.tags[a].name == m.tags[a].name && self@.tags[a].id == m.tags[a].id);
                assert(self@.tags[b].name == m.tags[b].name && self@.tags[b].id == m.tags[b].id);
            }
            assert forall|k: int|
                0 <= k < self@.links.len() implies self@.has_task((#[trigger] self@.links[k]).0)
                && self@.has_tag(self@.links[k].1) by {
                assert(m.has_task(m.links[k].0) && m.has_tag(m.links[k].1));
                let ti = m.tag_index(m.links[k].1);
                assert(self@.tags[ti].id == m.tags[ti].id);
            }
        }
        Ok(())
    }

    /// The tags linked to task `task_id`, in name order.
    fn tags_for(&self, task_id: i64) -> (r: Vec<Tag>)
        ensures
            r@.map_values(|t: Tag| t@) == self@.linked_tags(task_id as int),
    {
        let mut out: Vec<Tag> = Vec::new();
        let mut i: usize = 0;
        while i < self.tags.len()
            invariant
                i <= self.tags.len(),
                out@.map_values(|t: Tag| t@) =~= self@.tags.take(i as int).filter(
                    linked_to(self@.links, task_id as int),
                ),
            decreases self.tags.len() - i,
        {
            if self.has_link(task_id, self.tags[i].id) {
                out.push(self.tags[i].clone());
            }
            i = i + 1;
        }
        proof {
            assert(self@.tags.take(self@.tags.len() as int) == self@.tags);
        }
        out
    }

    /// The task at row index `i`, aggregated with its tags.
    fn aggregate_at(&self, i: usize) -> (r: Task)
        requires
            i < self@.tasks.len(),
        ensures
            r@ == self@.agg(self@.tasks[i as int]),
    {
        let tags = self.tags_for(self.tasks[i].id);
        let tags_opt = if tags.len() == 0 {
            None
        } else {
            Some(tags)
        };
        let r = Task {
            id: self.tasks[i].id,
            name: self.tasks[i].name.clone(),
            due_date: self.tasks[i].due_date,
            created_at: self.tasks[i].created_at,
            completed: self.tasks[i].completed,
            completed_at: self.tasks[i].completed_at,
            tags: tags_opt,
        };
        proof {
            assert(r@ =~= self@.agg(self@.tasks[i as int]));
        }
        r
    }

    /// The task with id `id`, aggregated with its tags, or a not-found
    /// error.
    pub fn get_by_id(&self, id: i64) -> (r: Result<Task, TaskError>)
        requires
            self@.wf(),
        ensures
            match r {
                Ok(t) => self@.has_task(id as int) && t@ == self@.agg(self@.task(id as int)),
                Err(e) => !self@.has_task(id as int) && e matches TaskError::NotFound,
            },
    {
        match self.find_task(id) {
            Some(i) => {
                proof {
                    lemma_task_index_is(self@, id as int, i as int);
                }
                Ok(self.aggregate_at(i))
            },
            None => Err(TaskError::NotFound),
        }
    }

    /// Every task in insertion order, each aggregated with its tags.
    pub fn list_all(&self) -> (r: Vec<Task>)
        ensures
            r@.len() == self@.tasks.len(),
            forall|i: int|
                0 <= i < r@.len() ==> (#[trigger] r@[i])@ == self@.agg(self@.tasks[i]),
    {
        let mut out: Vec<Task> = Vec::new();
        let mut i: usize = 0;
        while i < self.tasks.len()
            invariant
                i <= self.tasks.len(),
                out@.len() == i,
                forall|k: int| 0 <= k < i ==> (#[trigger] out@[k])@ == self@.agg(self@.tasks[k]),
            decreases self.tasks.len() - i,
        {
            let t = self.aggregate_at(i);
            out.push(t);
            i = i + 1;
        }
        out
    }

    /// The tasks not yet completed, in insertion order, aggregated.
    pub fn list_incomplete(&self) -> (r: Vec<Task>)
        ensures
            r@.map_values(|t: Task| t@) == self@.tasks.filter(row_incomplete()).map_values(
                agg_of(self@),
            ),
    {
        let mut out: Vec<Task> = Vec::new();
        let mut i: usize = 0;
        while i < self.tasks.len()
            invariant
                i <= self.tasks.len(),
                out@.map_values(|t: Task| t@) =~= self@.tasks.take(i as int).filter(
                    row_incomplete(),
                ).map_values(agg_of(self@)),
            decreases self.tasks.len() - i,
        {
            if !self.tasks[i].completed {
                let t = self.aggregate_at(i);
                out.push(t);
            }
            i = i + 1;
        }
        proof {
            assert(self@.tasks.take(self@.tasks.len() as int) == self@.tasks);
        }
        out
    }

    /// The tasks whose due date falls in the closed window
    /// `[lo, hi]`, in insertion order, aggregated.  Tasks with no due
    /// date are excluded.
    pub fn list_due_between(&self, lo: &Timestamp, hi: &Timestamp) -> (r: Vec<Task>)
        requires
            self@.wf(),
            lo.valid(),
            hi.valid(),
        ensures
            r@.map_values(|t: Task| t@) == self@.tasks.filter(row_due_between(*lo, *hi))
                .map_values(agg_of(self@)),
    {
        let mut out: Vec<Task> = Vec::new();
        let mut i: usize = 0;
        while i < self.tasks.len()
            invariant
                self@.wf(),
                lo.valid(),
                hi.valid(),
                i <= self.tasks.len(),
                out@.map_values(|t: Task| t@) =~= self@.tasks.take(i as int).filter(
                    row_due_between(*lo, *hi),
                ).map_values(agg_of(self@)),
            decreases self.tasks.len() - i,
        {
            let in_window = match &self.tasks[i].due_date {
                Some(d) => {
                    proof {
                        assert(self@.tasks[i as int].wf());
                    }
                    lo.le(d) && d.le(hi)
                },
                None => false,
            };
            if in_window {
                let t = self.aggregate_at(i);
                out.push(t);
            }
            i = i + 1;
        }
        proof {
            assert(self@.tasks.take(self@.tasks.len() as int) == self@.tasks);
        }
        out
    }

    /// Marks task `id` completed at instant `now`.  The first
    /// completion stamps `completed_at`; completing an already
    /// completed task is a no-op success that keeps the original
    /// stamp.  An unknown id is a not-found error.
    pub fn complete_at(&mut self, id: i64, now: Timestamp) -> (r: Result<(), TaskError>)
        requires
            old(self)@.wf(),
            now.valid(),
        ensures
            final(self)@.wf(),
            final(self)@ == complete_model(old(self)@, id as int, now),
            r is Ok <==> old(self)@.has_task(id as int),
            r matches Err(e) ==> e matches TaskError::NotFound,
    {
        let i = match self.find_task(id) {
            Some(i) => i,
            None => {
                return Err(TaskError::NotFound);
            },
        };
        let ghost m = self@;
        proof {
            lemma_task_index_is(m, id as int, i as int);
        }
        if self.tasks[i].completed {
            return Ok(());
        }
        let new_row = TaskRow {
            id: self.tasks[i].id,
            name: self.tasks[i].name.clone(),
            due_date: self.tasks[i].due_date,
            created_at: self.tasks[i].created_at,
            completed: true,
            completed_at: Some(now),
        };
        self.tasks.set(i, new_row);
        proof {
            assert(self@.tasks =~= m.tasks.update(
                i as int,
                TaskRowModel { completed: true, completed_at: Some(now), ..m.tasks[i as int] },
            ));
            assert(self@ =~= complete_model(m, id as int, now));
            lemma_wf_tasks_pointwise(m, self@);
        }
        Ok(())
    }

    /// Renames task `id` and returns the refreshed, aggregated task.
    /// An empty name breaks the data model and is rejected as a
    /// constraint violation; an unknown id is a not-found error.
    pub fn update_name(&mut self, id: i64, new_name: String) -> (r: Result<Task, TaskError>)
        requires
            old(self)@.wf(),
        ensures
            final(self)@.wf(),
            final(self)@ == (if new_name@.len() == 0 {
                old(self)@
            } else {
                update_name_model(old(self)@, id as int, new_name@)
            }),
            match r {
                Ok(t) => {
                    &&& new_name@.len() > 0
                    &&& old(self)@.has_task(id as int)
                    &&& t@ == final(self)@.agg(final(self)@.task(id as int))
                },
                Err(e) => {
                    &&& (e matches TaskError::ConstraintViolation <==> new_name@.len() == 0)
                    &&& (new_name@.len() > 0 ==> (e matches TaskError::NotFound && !old(
                    self)@.has_task(id as int)))
                },
            },
    {
        if new_name.as_str().is_empty() {
            return Err(TaskError::ConstraintViolation);
        }
        let i = match self.find_task(id) {
            Some(i) => i,
            None => {
                return Err(TaskError::NotFound);
            },
        };
        let ghost m = self@;
        proof {
            lemma_task_index_is(m, id as int, i as int);
        }
        let new_row = TaskRow {
            id: self.tasks[i].id,
            name: new_name,
            due_date: self.tasks[i].due_date,
            created_at: self.tasks[i].created_at,
            completed: self.tasks[i].completed,
            completed_at: self.tasks[i].completed_at,
        };
        self.tasks.set(i, new_row);
        proof {
            assert(self@.tasks[i as int].name.len() > 0);
            assert(self@.tasks =~= m.tasks.update(
                i as int,
                TaskRowModel { name: self@.tasks[i as int].name, ..m.tasks[i as int] },
            ));
            assert(self@ =~= update_name_model(m, id as int, self@.tasks[i as int].name));
            lemma_wf_tasks_pointwise(m, self@);
            lemma_task_index_is(self@, id as int, i as int);
        }
        Ok(self.aggregate_at(i))
    }

    /// Changes the due date of task `id` and returns the refreshed,
    /// aggregated task.  An unknown id is a not-found error.
    pub fn update_due_date(&mut self, id: i64, new_due_date: Option<Timestamp>) -> (r: Result<
        Task,
        TaskError,
    >)
        requires
            old(self)@.wf(),
            new_due_date matches Some(d) ==> d.valid(),
        ensures
            final(self)@.wf(),
            final(self)@ == update_due_model(old(self)@, id as int, new_due_date),
            match r {
                Ok(t) => {
                    &&& old(self)@.has_task(id as int)
                    &&& t@ == final(self)@.agg(final(self)@.task(id as int))
                },
                Err(e) => {
                    &&& e matches TaskError::NotFound
                    &&& !old(self)@.has_task(id as int)
                },
            },
    {
        let i = match self.find_task(id) {
            Some(i) => i,
            None => {
                return Err(TaskError::NotFound);
            },
        };
        let ghost m = self@;
        proof {
            lemma_task_index_is(m, id as int, i as int);
        }
        let new_row = TaskRow {
            id: self.tasks[i].id,
            name: self.tasks[i].name.clone(),
            due_date: new_due_date,
            created_at: self.tasks[i].created_at,
            completed: self.tasks[i].completed,
            completed_at: self.tasks[i].completed_at,
        };
        self.tasks.set(i, new_row);
        proof {
            assert(self@.tasks =~= m.tasks.update(
                i as int,
                TaskRowModel { due_date: new_due_date, ..m.tasks[i as int] },
            ));
            assert(self@ =~= update_due_model(m, id as int, new_due_date));
            lemma_wf_tasks_pointwise(m, self@);
            lemma_task_index_is(self@, id as int, i as int);
        }
        Ok(self.aggregate_at(i))
    }

    /// Deletes task `id` together with all its links.  Deleting an
    /// unknown id is a silent no-op.
    #[verifier::rlimit(80)]
    #[verifier::spinoff_prover]
    pub fn delete(&mut self, id: i64)
        requires
            old(self)@.wf(),
        ensures
            final(self)@.wf(),
            final(self)@ == delete_model(old(self)@, id as int),
    {
        let ghost m = self@;
        let mut kept_tasks: Vec<TaskRow> = Vec::new();
        let mut i: usize = 0;
        while i < self.tasks.len()
            invariant
                i <= self.tasks.len(),
                m == self@,
                kept_tasks@.map_values(|r: TaskRow| r@) =~= m.tasks.take(i as int).filter(
                    not_task_row(id as int),
                ),
            decreases self.tasks.len() - i,
        {
            if self.tasks[i].id != id {
                kept_tasks.push(self.tasks[i].clone());
            }
            i = i + 1;
        }
        let mut kept_links: Vec<(i64, i64)> = Vec::new();
        let mut j: usize = 0;
        while j < self.links.len()
            invariant
                j <= self.links.len(),
                m == self@,
                kept_links@.map_values(|l: (i64, i64)| (l.0 as int, l.1 as int))
                    =~= m.links.take(j as int).filter(not_task_link(id as int)),
            decreases self.links.len() - j,
        {
            let l = self.links[j];
            proof {
                assert(m.links[j as int] == (l.0 as int, l.1 as int));
            }
            if l.0 != id {
                kept_links.push(l);
            }
            j = j + 1;
        }
        proof {
            assert(m.tasks.take(m.tasks.len() as int) == m.tasks);
            assert(m.links.take(m.links.len() as int) == m.links);
        }
        self.tasks = kept_tasks;
        self.links = kept_links;
        proof {
            let pt = not_task_row(id as int);
            let pl = not_task_link(id as int);
            assert(self@ =~= delete_model(m, id as int));
            lemma_filter_distinct(m.tasks, pt);
            lemma_filter_distinct(m.links, pl);
            assert forall|k: int|
                0 <= k < self@.tasks.len() implies 1 <= (#[trigger] self@.tasks[k]).id
                < self@.next_task_id && self@.tasks[k].wf() by {
                assert(m.tasks.filter(pt).contains(self@.tasks[k]));
                m.tasks.lemma_filter_contains_rev(pt, self@.tasks[k]);
                let w = choose|w: int|
                    0 <= w < m.tasks.len() && m.tasks[w] == self@.tasks[k];
                assert(1 <= (#[trigger] m.tasks[w]).id < m.next_task_id && m.tasks[w].wf());
            }
            assert forall|a: int, b: int|
                0 <= a < b < self@.tasks.len() implies (#[trigger] self@.tasks[a]).id != (
            #[trigger] self@.tasks[b]).id by {
                assert(m.tasks.filter(pt).contains(self@.tasks[a]));
                assert(m.tasks.filter(pt).contains(self@.tasks[b]));
                m.tasks.lemma_filter_contains_rev(pt, self@.tasks[a]);
                m.tasks.lemma_filter_contains_rev(pt, self@.tasks[b]);
                let wa = choose|w: int| 0 <= w < m.tasks.len() && m.tasks[w] == self@.tasks[a];
                let wb = choose|w: int| 0 <= w < m.tasks.len() && m.tasks[w] == self@.tasks[b];
                assert(self@.tasks[a] != self@.tasks[b]);
                if wa < wb {
                    assert(m.tasks[wa].id != m.tasks[wb].id);
                } else if wb < wa {
                    assert(m.tasks[wb].id != m.tasks[wa].id);
                }
            }
            assert forall|k: int|
                0 <= k < self@.links.len() implies self@.has_task((#[trigger] self@.links[k]).0)
                && self@.has_tag(self@.links[k].1) by {
                let e = self@.links[k];
                assert(m.links.filter(pl).contains(e));
                m.links.lemma_filter_contains_rev(pl, e);
                let w = choose|w: int| 0 <= w < m.links.len() && m.links[w] == e;
                assert(m.has_task((#[trigger] m.links[w]).0) && m.has_tag(m.links[w].1));
                let u = choose|u: int|
                    0 <= u < m.tasks.len() && (#[trigger] m.tasks[u]).id == e.0;
                assert(pt(m.tasks[u]));
                m.tasks.lemma_filter_contains(pt, u);
                let v = choose|v: int|
                    0 <= v < m.tasks.filter(pt).len() && m.tasks.filter(pt)[v] == m.tasks[u];
                assert(self@.tasks[v].id == e.0);
                assert(self@.tags == m.tags);
            }
        }
    }

    /// One step of task creation's tag handling: upsert the tag by
    /// name, then link it to `task_id` if not yet linked.
    #[verifier::rlimit(80)]
    #[verifier::spinoff_prover]
    fn upsert_tag(&mut self, task_id: i64, nt: &NewTag)
        requires
            old(self)@.wf(),
            old(self)@.has_task(task_id as int),
            old(self)@.next_tag_id < i64::MAX,
        ensures
            final(self)@.wf(),
            final(self)@ == upsert_one(old(self)@, task_id as int, nt@),
            final(self)@.tasks == old(self)@.tasks,
            final(self)@.next_task_id == old(self)@.next_task_id,
            final(self)@.next_tag_id <= old(self)@.next_tag_id + 1,
    {
        let ghost m = self@;
        let tid = match self.find_tag_named(&nt.name) {
            Some(i) => {
                proof {
                    lemma_tag_index_named_is(m, nt.name@, i as int);
                }
                let id = self.tags[i].id;
                let name = self.tags[i].name.clone();
                self.tags.set(i, Tag { id, name, color: nt.color.clone() });
                proof {
                    assert(self@.tags =~= m.tags.update(
                        i as int,
                        TagModel { color: nt.color@, ..m.tags[i as int] },
                    ));
                    assert forall|a: int, b: int|
                        0 <= a < b < self@.tags.len() implies lex_lt(
                        (#[trigger] self@.tags[a]).name,
                        (#[trigger] self@.tags[b]).name,
                    ) && self@.tags[a].id != self@.tags[b].id by {
                        assert(self@.tags[a].name == m.tags[a].name && self@.tags[a].id
                            == m.tags[a].id);
                        assert(self@.tags[b].name == m.tags[b].name && self@.tags[b].id
                            == m.tags[b].id);
                    }
                    assert forall|k: int|
                        0 <= k < self@.links.len() implies self@.has_task(
                        (#[trigger] self@.links[k]).0,
                    ) && self@.has_tag(self@.links[k].1) by {
                        assert(m.has_task(m.links[k].0) && m.has_tag(m.links[k].1));
                        let ti = m.tag_index(m.links[k].1);
                        assert(self@.tags[ti].id == m.tags[ti].id);
                    }
                    assert(self@.wf());
                }
                id
            },
            None => {
                let pos = self.insert_pos(&nt.name);
                let id = self.next_tag_id;
                self.tags.insert(pos, Tag { id, name: nt.name.clone(), color: nt.color.clone() });
                self.next_tag_id = self.next_tag_id + 1;
                proof {
                    let rec = TagModel { id: m.next_tag_id, name: nt.name@, color: nt.color@ };
                    lemma_sorted_insert_at(m.tags, rec, pos as int);
                    assert(self@.tags =~= m.tags.insert(pos as int, rec));
                    m.tags.insert_ensures(pos as int, rec);
                    assert(forall|k: int|
                        0 <= k < m.tags.len() ==> (#[trigger] m.tags[k]).name != nt.name@);
                    assert forall|a: int, b: int|
                        0 <= a < b < self@.tags.len() implies lex_lt(
                        (#[trigger] self@.tags[a]).name,
                        (#[trigger] self@.tags[b]).name,
                    ) && self@.tags[a].id != self@.tags[b].id by {
                        if a == pos {
                            if b > pos {
                                assert(self@.tags[b] == m.tags[b - 1]);
                                if b - 1 > pos {
                                    lemma_lex_transitive(
                                        rec.name,
                                        m.tags[pos as int].name,
                                        m.tags[b - 1].name,
                                    );
                                }
                            }
                        } else if b == pos {
                            assert(self@.tags[a] == m.tags[a]);
                            if !lex_lt(m.tags[a].name, rec.name) {
                                lemma_lex_connected(rec.name, m.tags[a].name);
                            }
                        } else {
                            assert(self@.tags[a] == if a < pos {
                                m.tags[a]
                            } else {
                                m.tags[a - 1]
                            });
                            assert(self@.tags[b] == if b < pos {
                                m.tags[b]
                            } else {
                                m.tags[b - 1]
                            });
                        }
                    }
                    assert forall|k: int|
                        0 <= k < self@.links.len() implies self@.has_task(
                        (#[trigger] self@.links[k]).0,
                    ) && self@.has_tag(self@.links[k].1) by {
                        assert(m.has_task(m.links[k].0) && m.has_tag(m.links[k].1));
                        let ti = m.tag_index(m.links[k].1);
                        if ti < pos as int {
                            assert(self@.tags[ti] == m.tags[ti]);
                        } else {
                            assert(self@.tags[ti + 1] == m.tags[ti]);
                        }
                    }
                    assert(self@.wf());
                }
                id
            },
        };
        let ghost m1 = self@;
        proof {
            if m.has_tag_named(nt.name@) {
                assert(m1.tags[m.tag_index_named(nt.name@)].id == tid as int);
            } else {
                m.tags.insert_ensures(
                    m1.tag_index(tid as int),
                    TagModel { id: m.next_tag_id, name: nt.name@, color: nt.color@ },
                );
            }
        }
        if !self.has_link(task_id, tid) {
            self.links.push((task_id, tid));
            proof {
                assert(self@.links =~= m1.links.push((task_id as int, tid as int)));
                assert(self@ =~= upsert_one(m, task_id as int, nt@));
                assert forall|a: int, b: int|
                    0 <= a < b < self@.links.len() implies (#[trigger] self@.links[a]) != (
                #[trigger] self@.links[b]) by {
                    if b == self@.links.len() - 1 {
                        assert(self@.links[a] == m1.links[a]);
                    }
                }
                assert forall|k: int|
                    0 <= k < self@.links.len() implies self@.has_task(
                    (#[trigger] self@.links[k]).0,
                ) && self@.has_tag(self@.links[k].1) by {
                    assert(self@.tags == m1.tags);
                    assert(self@.tasks == m1.tasks);
                    if k < self@.links.len() - 1 {
                        assert(self@.links[k] == m1.links[k]);
                    } else {
                        assert(self@.links[k] == (task_id as int, tid as int));
                        if m.has_tag_named(nt.name@) {
                            let ti = m.tag_index_named(nt.name@);
                            assert(m1.tags[ti].id == tid as int);
                        }
                    }
                }
            }
        } else {
            proof {
                assert(self@ =~= upsert_one(m, task_id as int, nt@));
            }
        }
    }

    /// Creates a task in one transaction: the row is inserted with
    /// `created_at = now`, then each supplied tag is upserted by name
    /// (created, or its color updated to the supplied one) and linked
    /// to the new task, ignoring a duplicate link.  Returns the new
    /// task's id.  An empty name is rejected as a constraint
    /// violation, and then nothing at all changes.
    #[verifier::rlimit(80)]
    #[verifier::spinoff_prover]
    pub fn create_at(
        &mut self,
        name: String,
        due_date: Option<Timestamp>,
        tags: Option<Vec<NewTag>>,
        now: Timestamp,
    ) -> (r: Result<i64, TaskError>)
        requires
            old(self)@.wf(),
            now.valid(),
            due_date matches Some(d) ==> d.valid(),
            old(self)@.next_task_id < i64::MAX,
            old(self)@.next_tag_id + new_tags_seq(tags).len() <= i64::MAX,
        ensures
            final(self)@.wf(),
            match r {
                Ok(id) => {
                    &&& name@.len() > 0
                    &&& id as int == old(self)@.next_task_id
                    &&& final(self)@ == create_model(
                        old(self)@,
                        name@,
                        due_date,
                        new_tags_seq(tags),
                        now,
                    )
                },
                Err(e) => {
                    &&& name@.len() == 0
                    &&& e matches TaskError::ConstraintViolation
                    &&& final(self)@ == old(self)@
                },
            },
    {
        if name.as_str().is_empty() {
            return Err(TaskError::ConstraintViolation);
        }
        let ghost m = self@;
        let ghost tviews = new_tags_seq(tags);
        let id = self.next_task_id;
        self.tasks.push(
            TaskRow { id, name, due_date, created_at: now, completed: false, completed_at: None },
        );
        self.next_task_id = self.next_task_id + 1;
        proof {
            let row = TaskRowModel {
                id: m.next_task_id,
                name: name@,
                due_date,
                created_at: now,
                completed: false,
                completed_at: None,
            };
            assert(self@.tasks =~= m.tasks.push(row));
            assert forall|a: int, b: int|
                0 <= a < b < self@.tasks.len() implies (#[trigger] self@.tasks[a]).id != (
            #[trigger] self@.tasks[b]).id by {
                if b == self@.tasks.len() - 1 {
                    assert(self@.tasks[a] == m.tasks[a]);
                }
            }
            assert(self@.tags == m.tags);
            assert(self@.links == m.links);
            assert forall|k: int|
                0 <= k < self@.links.len() implies self@.has_task((#[trigger] self@.links[k]).0)
                && self@.has_tag(self@.links[k].1) by {
                assert(self@.links[k] == m.links[k]);
                assert(m.has_task((#[trigger] m.links[k]).0) && m.has_tag(m.links[k].1));
                let w = choose|w: int|
                    0 <= w < m.tasks.len() && (#[trigger] m.tasks[w]).id == m.links[k].0;
                assert(self@.tasks[w] == m.tasks[w]);
                assert(self@.has_task(self@.links[k].0));
                assert(self@.has_tag(self@.links[k].1));
            }
            assert(self@.wf());
            assert(self@.tasks[m.tasks.len() as int].id == id as int);
        }
        let ghost m1 = self@;
        if let Some(tag_vec) = &tags {
            let mut k: usize = 0;
            while k < tag_vec.len()
                invariant
                    self@.wf(),
                    k <= tag_vec.len(),
                    tviews == tag_vec@.map_values(|t: NewTag| t@),
                    self@ == upsert_fold(m1, id as int, tviews.take(k as int)),
                    self@.tasks == m1.tasks,
                    m1.has_task(id as int),
                    self@.next_tag_id <= m1.next_tag_id + k,
                    m1.next_tag_id + tviews.len() <= i64::MAX,
                decreases tag_vec.len() - k,
            {
                proof {
                    assert(self@.has_task(id as int));
                    assert(tviews[k as int] == tag_vec@[k as int]@);
                }
                self.upsert_tag(id, &tag_vec[k]);
                proof {
                    lemma_upsert_fold_push(m1, id as int, tviews.take(k as int), tviews[k as int]);
                    assert(tviews.take(k as int).push(tviews[k as int]) =~= tviews.take(
                        k as int + 1,
                    ));
                }
                k = k + 1;
            }
            proof {
                assert(tviews.take(tviews.len() as int) == tviews);
            }
        }
        proof {
            assert(self@ == create_model(m, name@, due_date, tviews, now));
        }
        Ok(id)
    }

    /// Creates a task stamped with the current UTC time: the clocked
    /// form of [`Store::create_at`].  Fails with
    /// [`TaskError::ClockUnavailable`], changing nothing, when the
    /// platform clock yields no usable instant.
    pub fn create(
        &mut self,
        name: String,
        due_date: Option<Timestamp>,
        tags: Option<Vec<NewTag>>,
    ) -> (r: Result<i64, TaskError>)
        requires
            old(self)@.wf(),
            due_date matches Some(d) ==> d.valid(),
            old(self)@.next_task_id < i64::MAX,
            old(self)@.next_tag_id + new_tags_seq(tags).len() <= i64::MAX,
        ensures
            final(self)@.wf(),
            match r {
                Ok(id) => {
                    &&& name@.len() > 0
                    &&& id as int == old(self)@.next_task_id
                    &&& exists|now: Timestamp|
                        now.valid() && final(self)@ == create_model(
                            old(self)@,
                            name@,
                            due_date,
                            new_tags_seq(tags),
                            now,
                        )
                },
                Err(e) => {
                    &&& final(self)@ == old(self)@
                    &&& ((e matches TaskError::ConstraintViolation && name@.len() == 0) || (
                    e matches TaskError::ClockUnavailable))
                },
            },
    {
        let now = match clock::now_timestamp() {
            Some(t) => t,
            None => {
                return Err(TaskError::ClockUnavailable);
            },
        };
        let ghost gname = name@;
        let r = self.create_at(name, due_date, tags, now);
        proof {
            if r is Ok {
                assert(now.valid() && self@ == create_model(
                    old(self)@,
                    gname,
                    due_date,
                    new_tags_seq(tags),
                    now,
                ));
            }
        }
        r
    }

    /// Completes a task, stamped with the current UTC time: the
    /// clocked form of [`Store::complete_at`].  Fails with
    /// [`TaskError::ClockUnavailable`], changing nothing, when the
    /// platform clock yields no usable instant.
    pub fn complete(&mut self, id: i64) -> (r: Result<(), TaskError>)
        requires
            old(self)@.wf(),
        ensures
            final(self)@.wf(),
            match r {
                Ok(()) => {
                    &&& old(self)@.has_task(id as int)
                    &&& exists|now: Timestamp|
                        now.valid() && final(self)@ == complete_model(old(self)@, id as int, now)
                },
                Err(e) => {
                    &&& final(self)@ == old(self)@
                    &&& ((e matches TaskError::NotFound && !old(self)@.has_task(id as int)) || (
                    e matches TaskError::ClockUnavailable))
                },
            },
    {
        let now = match clock::now_timestamp() {
            Some(t) => t,
            None => {
                return Err(TaskError::ClockUnavailable);
            },
        };
        let r = self.complete_at(id, now);
        proof {
            if r is Ok {
                assert(now.valid() && self@ == complete_model(old(self)@, id as int, now));
            }
        }
        r
    }

    /// The tasks due today: those whose due date falls in today's
    /// local-day window, converted to UTC — the clocked form of
    /// [`Store::list_due_between`].  Fails with
    /// [`TaskError::ClockUnavailable`] when the platform time zone
    /// yields no usable window.
    pub fn list_due_today(&self) -> (r: Result<Vec<Task>, TaskError>)
        requires
            self@.wf(),
        ensures
            match r {
                Ok(v) => exists|lo: Timestamp, hi: Timestamp|
                    lo.valid() && hi.valid() && v@.map_values(|t: Task| t@) == self@.tasks.filter(
                        row_due_between(lo, hi),
                    ).map_values(agg_of(self@)),
                Err(e) => e matches TaskError::ClockUnavailable,
            },
    {
        let (lo, hi) = match clock::local_today_window() {
            Some(w) => w,
            None => {
                return Err(TaskError::ClockUnavailable);
            },
        };
        let v = self.list_due_between(&lo, &hi);
        proof {
            assert(lo.valid() && hi.valid() && v@.map_values(|t: Task| t@)
                == self@.tasks.filter(row_due_between(lo, hi)).map_values(agg_of(self@)));
        }
        Ok(v)
    }

    /// The id the next created task will get.
    pub fn next_task_id(&self) -> (r: i64)
        ensures
            r as int == self@.next_task_id,
    {
        self.next_task_id
    }

    /// The id the next created tag will get.
    pub fn next_tag_id(&self) -> (r: i64)
        ensures
            r as int == self@.next_tag_id,
    {
        self.next_tag_id
    }

    /// Every tag, in name order.
    pub fn list_tags(&self) -> (r: Vec<Tag>)
        ensures
            r@.map_values(|t: Tag| t@) == self@.tags,
    {
        let mut out: Vec<Tag> = Vec::new();
        let mut i: usize = 0;
        while i < self.tags.len()
            invariant
                i <= self.tags.len(),
                out@.map_values(|t: Tag| t@) =~= self@.tags.take(i as int),
            decreases self.tags.len() - i,
        {
            out.push(self.tags[i].clone());
            i = i + 1;
        }
        proof {
            assert(self@.tags.take(self@.tags.len() as int) == self@.tags);
        }
        out
    }
}

/// A filter whose predicate holds everywhere keeps the sequence.
proof fn lemma_filter_noop<A>(s: Seq<A>, p: spec_fn(A) -> bool)
    requires
        forall|k: int| 0 <= k < s.len() ==> p(#[trigger] s[k]),
    ensures
        s.filter(p) == s,
    decreases s.len(),
{
    reveal(Seq::filter);
    if s.len() > 0 {
        lemma_filter_noop(s.drop_last(), p);
        assert(p(s.last()));
        assert(s =~= s.drop_last().push(s.last()));
    }
}

/// Law: completing a task twice yields the same `completed_at` as the
/// first call — the second completion changes nothing at all.
pub proof fn lemma_complete_idempotent(m: StoreModel, id: int, n1: Timestamp, n2: Timestamp)
    requires
        m.wf(),
    ensures
        complete_model(complete_model(m, id, n1), id, n2) == complete_model(m, id, n1),
{
    if m.has_task(id) {
        let i = m.task_index(id);
        assert(0 <= i < m.tasks.len() && m.tasks[i].id == id);
        if !m.tasks[i].completed {
            let m2 = complete_model(m, id, n1);
            assert(m2.tasks[i].id == id);
            assert(m2.has_task(id));
            let j = m2.task_index(id);
            assert(0 <= j < m2.tasks.len() && m2.tasks[j].id == id);
            if j != i {
                assert(m2.tasks[j].id == m.tasks[j].id);
                if j < i {
                    assert(m.tasks[j].id != m.tasks[i].id);
                } else {
                    assert(m.tasks[i].id != m.tasks[j].id);
                }
            }
            assert(m2.tasks[j].completed);
        }
    }
}

/// Every completed task was completed no earlier than it was created.
pub open spec fn completion_consistent(m: StoreModel) -> bool {
    forall|i: int|
        0 <= i < m.tasks.len() ==> match (#[trigger] m.tasks[i]).completed_at {
            Some(c) => m.tasks[i].created_at.instant() <= c.instant(),
            None => true,
        }
}

/// Law: completing a task keeps `completed_at >= created_at` holding
/// of every completed task, provided the clock has not run backwards
/// past the task's creation (`now` is at or after its `created_at`).
pub proof fn lemma_complete_keeps_consistency(m: StoreModel, id: int, now: Timestamp)
    requires
        m.wf(),
        completion_consistent(m),
        m.has_task(id) ==> m.task(id).created_at.instant() <= now.instant(),
    ensures
        completion_consistent(complete_model(m, id, now)),
{
    if m.has_task(id) {
        let i = m.task_index(id);
        assert(0 <= i < m.tasks.len() && m.tasks[i].id == id);
        if !m.tasks[i].completed {
            let m2 = complete_model(m, id, now);
            assert forall|k: int|
                0 <= k < m2.tasks.len() implies match (#[trigger] m2.tasks[k]).completed_at {
                Some(c) => m2.tasks[k].created_at.instant() <= c.instant(),
                None => true,
            } by {
                if k != i {
                    assert(m2.tasks[k] == m.tasks[k]);
                }
            }
        }
    }
}

/// Folding the tag upserts never touches the task table.
proof fn lemma_upsert_fold_tasks(m: StoreModel, task_id: int, tags: Seq<NewTagModel>)
    ensures
        upsert_fold(m, task_id, tags).tasks == m.tasks,
        upsert_fold(m, task_id, tags).next_task_id == m.next_task_id,
    decreases tags.len(),
{
    if tags.len() > 0 {
        lemma_upsert_fold_tasks(upsert_one(m, task_id, tags[0]), task_id, tags.drop_first());
    }
}

/// Law: a created task starts not completed, so creation keeps
/// `completed_at >= created_at` holding of every completed task.
pub proof fn lemma_create_keeps_consistency(
    m: StoreModel,
    name: Seq<char>,
    due: Option<Timestamp>,
    tags: Seq<NewTagModel>,
    now: Timestamp,
)
    requires
        completion_consistent(m),
    ensures
        completion_consistent(create_model(m, name, due, tags, now)),
{
    let row = TaskRowModel {
        id: m.next_task_id,
        name,
        due_date: due,
        created_at: now,
        completed: false,
        completed_at: None,
    };
    let m1 = StoreModel { tasks: m.tasks.push(row), next_task_id: m.next_task_id + 1, ..m };
    assert forall|k: int|
        0 <= k < m1.tasks.len() implies match (#[trigger] m1.tasks[k]).completed_at {
        Some(c) => m1.tasks[k].created_at.instant() <= c.instant(),
        None => true,
    } by {
        if k < m.tasks.len() {
            assert(m1.tasks[k] == m.tasks[k]);
        }
    }
    lemma_upsert_fold_tasks(m1, m.next_task_id, tags);
}

/// Law: renaming, rescheduling and deleting keep `completed_at >=
/// created_at` holding of every completed task — none of them touches
/// a completion or creation stamp.
pub proof fn lemma_updates_keep_consistency(
    m: StoreModel,
    id: int,
    name: Seq<char>,
    due: Option<Timestamp>,
)
    requires
        completion_consistent(m),
    ensures
        completion_consistent(update_name_model(m, id, name)),
        completion_consistent(update_due_model(m, id, due)),
        completion_consistent(delete_model(m, id)),
{
    if m.has_task(id) {
        let i = m.task_index(id);
        assert(0 <= i < m.tasks.len() && m.tasks[i].id == id);
        assert forall|k: int|
            0 <= k < update_name_model(m, id, name).tasks.len() implies match (
        #[trigger] update_name_model(m, id, name).tasks[k]).completed_at {
            Some(c) => update_name_model(m, id, name).tasks[k].created_at.instant()
                <= c.instant(),
            None => true,
        } by {
            if k != i {
                assert(update_name_model(m, id, name).tasks[k] == m.tasks[k]);
            }
        }
        assert forall|k: int|
            0 <= k < update_due_model(m, id, due).tasks.len() implies match (
        #[trigger] update_due_model(m, id, due).tasks[k]).completed_at {
            Some(c) => update_due_model(m, id, due).tasks[k].created_at.instant() <= c.instant(),
            None => true,
        } by {
            if k != i {
                assert(update_due_model(m, id, due).tasks[k] == m.tasks[k]);
            }
        }
    }
    let md = delete_model(m, id);
    assert forall|k: int|
        0 <= k < md.tasks.len() implies match (#[trigger] md.tasks[k]).completed_at {
        Some(c) => md.tasks[k].created_at.instant() <= c.instant(),
        None => true,
    } by {
        assert(md.tasks.contains(md.tasks[k]));
        m.tasks.lemma_filter_contains_rev(not_task_row(id), md.tasks[k]);
        let w = choose|w: int| 0 <= w < m.tasks.len() && m.tasks[w] == md.tasks[k];
        assert(m.tasks[w] == md.tasks[k]);
    }
}

/// Law: linking is idempotent — linking an already linked pair leaves
/// the state unchanged.
pub proof fn lemma_link_idempotent(m: StoreModel, a: int, b: int)
    ensures
        link_model(link_model(m, a, b), a, b) == link_model(m, a, b),
{
    if !m.links.contains((a, b)) {
        let m2 = link_model(m, a, b);
        assert(m2.links[m.links.len() as int] == (a, b));
        assert(m2.links.contains((a, b)));
    }
}

/// Law: unlinking is idempotent — unlinking a pair that is not linked
/// leaves the state unchanged.
pub proof fn lemma_unlink_idempotent(m: StoreModel, a: int, b: int)
    ensures
        unlink_model(unlink_model(m, a, b), a, b) == unlink_model(m, a, b),
{
    let p = not_pair(a, b);
    let f = m.links.filter(p);
    assert forall|k: int| 0 <= k < f.len() implies p(#[trigger] f[k]) by {
        m.links.lemma_filter_pred(p, k);
    }
    lemma_filter_noop(f, p);
    assert(unlink_model(unlink_model(m, a, b), a, b) =~= unlink_model(m, a, b));
}

/// Law: deleting a task removes every link of that task.
pub proof fn lemma_delete_unlinks(m: StoreModel, id: int)
    ensures
        forall|k: int|
            0 <= k < delete_model(m, id).links.len() ==> (#[trigger] delete_model(
                m,
                id,
            ).links[k]).0 != id,
{
    assert forall|k: int|
        0 <= k < delete_model(m, id).links.len() implies (#[trigger] delete_model(
        m,
        id,
    ).links[k]).0 != id by {
        m.links.lemma_filter_pred(not_task_link(id), k);
    }
}

/// Law: after removing the tag named `name`, no task's aggregated tag
/// list carries that name any more, and no link references the
/// removed tag's id.
pub proof fn lemma_remove_tag_unlinks(m: StoreModel, name: Seq<char>)
    requires
        m.wf(),
    ensures
        forall|task_id: int, k: int|
            0 <= k < remove_tag_model(m, name).linked_tags(task_id).len() ==> (
            #[trigger] remove_tag_model(m, name).linked_tags(task_id)[k]).name != name,
        m.has_tag_named(name) ==> forall|k: int|
            0 <= k < remove_tag_model(m, name).links.len() ==> (#[trigger] remove_tag_model(
                m,
                name,
            ).links[k]).1 != m.tags[m.tag_index_named(name)].id,
{
    let m2 = remove_tag_model(m, name);
    if m.has_tag_named(name) {
        let i = m.tag_index_named(name);
        assert(0 <= i < m.tags.len() && m.tags[i].name == name);
        assert forall|k: int|
            0 <= k < m2.tags.len() implies (#[trigger] m2.tags[k]).name != name by {
            assert(m2.tags[k] == if k < i {
                m.tags[k]
            } else {
                m.tags[k + 1]
            });
            if k < i {
                if m.tags[k].name == name {
                    lemma_lex_irreflexive(name);
                }
            } else {
                if m.tags[k + 1].name == name {
                    lemma_lex_irreflexive(name);
                }
            }
        }
        assert forall|k: int|
            0 <= k < m2.links.len() implies (#[trigger] m2.links[k]).1 != m.tags[i].id by {
            m.links.lemma_filter_pred(not_tag_link(m.tags[i].id), k);
        }
    } else {
        assert forall|k: int|
            0 <= k < m2.tags.len() implies (#[trigger] m2.tags[k]).name != name by {
        }
    }
    assert forall|task_id: int, k: int|
        0 <= k < m2.linked_tags(task_id).len() implies (
    #[trigger] m2.linked_tags(task_id)[k]).name != name by {
        let lt = m2.linked_tags(task_id);
        assert(lt.contains(lt[k]));
        m2.tags.lemma_filter_contains_rev(linked_to(m2.links, task_id), lt[k]);
        let w = choose|w: int| 0 <= w < m2.tags.len() && m2.tags[w] == lt[k];
        assert((#[trigger] m2.tags[w]).name != name);
    }
}

/// Task `task_id` has a linked tag named `nm`.
pub open spec fn task_has_tag_named(m: StoreModel, task_id: int, nm: Seq<char>) -> bool {
    exists|i: int|
        0 <= i < m.tags.len() && (#[trigger] m.tags[i]).name == nm && m.links.contains(
            (task_id, m.tags[i].id),
        )
}

/// The names of a supplied tag list.
pub open spec fn tag_names(tags: Seq<NewTagModel>) -> Seq<Seq<char>> {
    tags.map_values(|t: NewTagModel| t.name)
}

/// [`sorted_insert`] inserts at some position that respects the name
/// order.
proof fn lemma_sorted_insert_pos(tags: Seq<TagModel>, t: TagModel) -> (pos: int)
    ensures
        0 <= pos <= tags.len(),
        sorted_insert(tags, t) == tags.insert(pos, t),
        forall|k: int| 0 <= k < pos ==> !lex_lt(t.name, (#[trigger] tags[k]).name),
        pos < tags.len() ==> lex_lt(t.name, tags[pos].name),
    decreases tags.len(),
{
    if tags.len() == 0 {
        assert(sorted_insert(tags, t) =~= tags.insert(0, t));
        0
    } else if lex_lt(t.name, tags[0].name) {
        assert(sorted_insert(tags, t) =~= tags.insert(0, t));
        0
    } else {
        let dl = tags.drop_first();
        let p = lemma_sorted_insert_pos(dl, t);
        assert(seq![tags[0]] + dl.insert(p, t) =~= tags.insert(p + 1, t));
        assert forall|k: int| 0 <= k < p + 1 implies !lex_lt(t.name, (#[trigger] tags[k]).name) by {
            if k > 0 {
                assert(dl[k - 1] == tags[k]);
                assert(!lex_lt(t.name, dl[k - 1].name));
            }
        }
        if p + 1 < tags.len() {
            assert(dl[p] == tags[p + 1]);
        }
        p + 1
    }
}

/// What one tag upsert does: the state stays well-formed, the task
/// table is untouched, the upserted name is now linked to `task_id`,
/// and no other name's link status changes for `task_id`.
proof fn lemma_upsert_one_props(m: StoreModel, task_id: int, nt: NewTagModel)
    requires
        m.wf(),
        m.has_task(task_id),
    ensures
        upsert_one(m, task_id, nt).wf(),
        upsert_one(m, task_id, nt).tasks == m.tasks,
        upsert_one(m, task_id, nt).next_task_id == m.next_task_id,
        task_has_tag_named(upsert_one(m, task_id, nt), task_id, nt.name),
        forall|nm: Seq<char>|
            nm != nt.name ==> (task_has_tag_named(upsert_one(m, task_id, nt), task_id, nm)
                <==> task_has_tag_named(m, task_id, nm)),
{
    if m.has_tag_named(nt.name) {
        lemma_upsert_one_props_existing(m, task_id, nt);
    } else {
        lemma_upsert_one_props_new(m, task_id, nt);
    }
}

/// The case of [`lemma_upsert_one_props`] where a tag of that name
/// already exists: only its color changes, and the link is ensured.
#[verifier::rlimit(80)]
#[verifier::spinoff_prover]
proof fn lemma_upsert_one_props_existing(m: StoreModel, task_id: int, nt: NewTagModel)
    requires
        m.wf(),
        m.has_task(task_id),
        m.has_tag_named(nt.name),
    ensures
        upsert_one(m, task_id, nt).wf(),
        upsert_one(m, task_id, nt).tasks == m.tasks,
        upsert_one(m, task_id, nt).next_task_id == m.next_task_id,
        task_has_tag_named(upsert_one(m, task_id, nt), task_id, nt.name),
        forall|nm: Seq<char>|
            nm != nt.name ==> (task_has_tag_named(upsert_one(m, task_id, nt), task_id, nm)
                <==> task_has_tag_named(m, task_id, nm)),
{
    let m2 = upsert_one(m, task_id, nt);
    {
        let i = m.tag_index_named(nt.name);
        assert(0 <= i < m.tags.len() && m.tags[i].name == nt.name);
        let tid = m.tags[i].id;
        let ma = StoreModel {
            tags: m.tags.update(i, TagModel { color: nt.color, ..m.tags[i] }),
            ..m
        };
        assert(forall|k: int|
            0 <= k < ma.tags.len() ==> (#[trigger] ma.tags[k]).name == m.tags[k].name
                && ma.tags[k].id == m.tags[k].id);
        assert forall|k: int|
            0 <= k < ma.links.len() implies ma.has_task((#[trigger] ma.links[k]).0)
            && ma.has_tag(ma.links[k].1) by {
            assert(m.has_task((#[trigger] m.links[k]).0) && m.has_tag(m.links[k].1));
            let ti = m.tag_index(m.links[k].1);
            assert(ma.tags[ti].id == m.tags[ti].id);
        }
        assert(ma.wf());
        if m.links.contains((task_id, tid)) {
            assert(m2 == ma);
            assert(ma.tags[i].name == nt.name && ma.tags[i].id == tid);
            assert(task_has_tag_named(m2, task_id, nt.name));
        } else {
            assert(m2.links == m.links.push((task_id, tid)));
            assert forall|a: int, b: int|
                0 <= a < b < m2.links.len() implies (#[trigger] m2.links[a]) != (
            #[trigger] m2.links[b]) by {
                if b == m2.links.len() - 1 {
                    assert(m2.links[a] == m.links[a]);
                }
            }
            assert forall|k: int|
                0 <= k < m2.links.len() implies m2.has_task((#[trigger] m2.links[k]).0)
                && m2.has_tag(m2.links[k].1) by {
                if k < m2.links.len() - 1 {
                    assert(m2.links[k] == m.links[k]);
                    assert(m.has_task((#[trigger] m.links[k]).0) && m.has_tag(m.links[k].1));
                    let ti = m.tag_index(m.links[k].1);
                    assert(m2.tags[ti].id == m.tags[ti].id);
                } else {
                    assert(m2.links[k] == (task_id, tid));
                    assert(m2.tags[i].id == tid);
                }
            }
            assert(m2.wf());
            assert(m2.links[m.links.len() as int] == (task_id, tid));
            assert(m2.links.contains((task_id, tid)));
            assert(m2.tags[i].name == nt.name && m2.tags[i].id == tid);
            assert(task_has_tag_named(m2, task_id, nt.name));
        }
        assert forall|nm: Seq<char>| nm != nt.name implies (task_has_tag_named(m2, task_id, nm)
            <==> task_has_tag_named(m, task_id, nm)) by {
            if task_has_tag_named(m2, task_id, nm) {
                let w = choose|w: int|
                    0 <= w < m2.tags.len() && (#[trigger] m2.tags[w]).name == nm
                        && m2.links.contains((task_id, m2.tags[w].id));
                assert(m.tags[w].name == nm && m.tags[w].id == m2.tags[w].id);
                let lk = choose|lk: int|
                    0 <= lk < m2.links.len() && m2.links[lk] == (task_id, m2.tags[w].id);
                if lk < m.links.len() {
                    assert(m.links[lk] == (task_id, m.tags[w].id));
                    assert(m.links.contains((task_id, m.tags[w].id)));
                    assert(task_has_tag_named(m, task_id, nm));
                } else {
                    assert(m2.links[lk] == (task_id, tid));
                    assert(m.tags[w].id == tid);
                    if w != i {
                        if w < i {
                            assert(m.tags[w].id != m.tags[i].id);
                        } else {
                            assert(m.tags[i].id != m.tags[w].id);
                        }
                    }
                    assert(false);
                }
            }
            if task_has_tag_named(m, task_id, nm) {
                let w = choose|w: int|
                    0 <= w < m.tags.len() && (#[trigger] m.tags[w]).name == nm
                        && m.links.contains((task_id, m.tags[w].id));
                let lk = choose|lk: int|
                    0 <= lk < m.links.len() && m.links[lk] == (task_id, m.tags[w].id);
                assert(m2.links[lk] == m.links[lk]);
                assert(m2.links.contains((task_id, m2.tags[w].id)));
                assert(m2.tags[w].name == nm);
                assert(task_has_tag_named(m2, task_id, nm));
            }
        }
    }
}

/// The case of [`lemma_upsert_one_props`] where no tag of that name
/// exists yet: a fresh tag enters the table in name order and is
/// linked.
#[verifier::rlimit(80)]
#[verifier::spinoff_prover]
proof fn lemma_upsert_one_props_new(m: StoreModel, task_id: int, nt: NewTagModel)
    requires
        m.wf(),
        m.has_task(task_id),
        !m.has_tag_named(nt.name),
    ensures
        upsert_one(m, task_id, nt).wf(),
        upsert_one(m, task_id, nt).tasks == m.tasks,
        upsert_one(m, task_id, nt).next_task_id == m.next_task_id,
        task_has_tag_named(upsert_one(m, task_id, nt), task_id, nt.name),
        forall|nm: Seq<char>|
            nm != nt.name ==> (task_has_tag_named(upsert_one(m, task_id, nt), task_id, nm)
                <==> task_has_tag_named(m, task_id, nm)),
{
    let m2 = upsert_one(m, task_id, nt);
    {
        let rec = TagModel { id: m.next_tag_id, name: nt.name, color: nt.color };
        let tid = m.next_tag_id;
        assert(forall|k: int| 0 <= k < m.tags.len() ==> (#[trigger] m.tags[k]).name != nt.name);
        let pos = lemma_sorted_insert_pos(m.tags, rec);
        let ma = StoreModel {
            tags: sorted_insert(m.tags, rec),
            next_tag_id: m.next_tag_id + 1,
            ..m
        };
        m.tags.insert_ensures(pos, rec);
        assert(ma.tags[pos] == rec);
        assert forall|a: int, b: int|
            0 <= a < b < ma.tags.len() implies lex_lt(
            (#[trigger] ma.tags[a]).name,
            (#[trigger] ma.tags[b]).name,
        ) && ma.tags[a].id != ma.tags[b].id by {
            if a == pos {
                if b > pos {
                    assert(ma.tags[b] == m.tags[b - 1]);
                    if b - 1 > pos {
                        lemma_lex_transitive(rec.name, m.tags[pos].name, m.tags[b - 1].name);
                    }
                }
            } else if b == pos {
                assert(ma.tags[a] == m.tags[a]);
                if !lex_lt(m.tags[a].name, rec.name) {
                    lemma_lex_connected(rec.name, m.tags[a].name);
                }
            } else {
                assert(ma.tags[a] == if a < pos {
                    m.tags[a]
                } else {
                    m.tags[a - 1]
                });
                assert(ma.tags[b] == if b < pos {
                    m.tags[b]
                } else {
                    m.tags[b - 1]
                });
            }
        }
        assert forall|k: int|
            0 <= k < ma.links.len() implies ma.has_task((#[trigger] ma.links[k]).0)
            && ma.has_tag(ma.links[k].1) by {
            assert(m.has_task((#[trigger] m.links[k]).0) && m.has_tag(m.links[k].1));
            let ti = m.tag_index(m.links[k].1);
            if ti < pos {
                assert(ma.tags[ti] == m.tags[ti]);
            } else {
                assert(ma.tags[ti + 1] == m.tags[ti]);
            }
        }
        assert(ma.wf());
        if m.links.contains((task_id, tid)) {
            let lk = choose|lk: int|
                0 <= lk < m.links.len() && m.links[lk] == (task_id, tid);
            assert(m.has_tag((#[trigger] m.links[lk]).1));
            let ti = m.tag_index(tid);
            assert(m.tags[ti].id < m.next_tag_id);
            assert(false);
        }
        assert(m2.links == m.links.push((task_id, tid)));
        assert forall|a: int, b: int|
            0 <= a < b < m2.links.len() implies (#[trigger] m2.links[a]) != (
        #[trigger] m2.links[b]) by {
            if b == m2.links.len() - 1 {
                assert(m2.links[a] == m.links[a]);
            }
        }
        assert forall|k: int|
            0 <= k < m2.links.len() implies m2.has_task((#[trigger] m2.links[k]).0)
            && m2.has_tag(m2.links[k].1) by {
            if k < m2.links.len() - 1 {
                assert(m2.links[k] == m.links[k]);
                assert(ma.has_task((#[trigger] ma.links[k]).0) && ma.has_tag(ma.links[k].1));
            } else {
                assert(m2.links[k] == (task_id, tid));
                assert(m2.tags[pos].id == tid);
            }
        }
        assert(m2.wf());
        assert(m2.links[m.links.len() as int] == (task_id, tid));
        assert(m2.links.contains((task_id, tid)));
        assert(m2.tags[pos].name == nt.name && m2.tags[pos].id == tid);
        assert(task_has_tag_named(m2, task_id, nt.name));
        assert forall|nm: Seq<char>| nm != nt.name implies (task_has_tag_named(m2, task_id, nm)
            <==> task_has_tag_named(m, task_id, nm)) by {
            if task_has_tag_named(m2, task_id, nm) {
                let w = choose|w: int|
                    0 <= w < m2.tags.len() && (#[trigger] m2.tags[w]).name == nm
                        && m2.links.contains((task_id, m2.tags[w].id));
                assert(w != pos);
                let wo = if w < pos {
                    w
                } else {
                    w - 1
                };
                assert(m2.tags[w] == m.tags[wo]);
                let lk = choose|lk: int|
                    0 <= lk < m2.links.len() && m2.links[lk] == (task_id, m2.tags[w].id);
                if lk < m.links.len() {
                    assert(m.links[lk] == (task_id, m.tags[wo].id));
                    assert(m.links.contains((task_id, m.tags[wo].id)));
                    assert(task_has_tag_named(m, task_id, nm));
                } else {
                    assert(m2.links[lk] == (task_id, tid));
                    assert(m.tags[wo].id == tid);
                    assert(m.tags[wo].id < m.next_tag_id);
                    assert(false);
                }
            }
            if task_has_tag_named(m, task_id, nm) {
                let w = choose|w: int|
                    0 <= w < m.tags.len() && (#[trigger] m.tags[w]).name == nm
                        && m.links.contains((task_id, m.tags[w].id));
                let wn = if w < pos {
                    w
                } else {
                    w + 1
                };
                assert(m2.tags[wn] == m.tags[w]);
                let lk = choose|lk: int|
                    0 <= lk < m.links.len() && m.links[lk] == (task_id, m.tags[w].id);
                assert(m2.links[lk] == m.links[lk]);
                assert(m2.links.contains((task_id, m2.tags[wn].id)));
                assert(task_has_tag_named(m2, task_id, nm));
            }
        }
    }
}

/// Folding the tag upserts links exactly the supplied names, on top of
/// whatever was linked before, and keeps the state well-formed.
#[verifier::rlimit(80)]
#[verifier::spinoff_prover]
proof fn lemma_upsert_fold_names(m: StoreModel, task_id: int, tags: Seq<NewTagModel>)
    requires
        m.wf(),
        m.has_task(task_id),
    ensures
        upsert_fold(m, task_id, tags).wf(),
        upsert_fold(m, task_id, tags).tasks == m.tasks,
        upsert_fold(m, task_id, tags).next_task_id == m.next_task_id,
        forall|nm: Seq<char>|
            task_has_tag_named(upsert_fold(m, task_id, tags), task_id, nm) <==> (
            task_has_tag_named(m, task_id, nm) || tag_names(tags).contains(nm)),
    decreases tags.len(),
{
    if tags.len() > 0 {
        lemma_upsert_one_props(m, task_id, tags[0]);
        let m2 = upsert_one(m, task_id, tags[0]);
        assert(m2.has_task(task_id));
        lemma_upsert_fold_names(m2, task_id, tags.drop_first());
        let mf = upsert_fold(m, task_id, tags);
        assert(mf == upsert_fold(m2, task_id, tags.drop_first()));
        assert forall|nm: Seq<char>|
            task_has_tag_named(mf, task_id, nm) <==> (task_has_tag_named(m, task_id, nm)
                || tag_names(tags).contains(nm)) by {
            if tag_names(tags).contains(nm) {
                let k = choose|k: int|
                    0 <= k < tag_names(tags).len() && tag_names(tags)[k] == nm;
                if k > 0 {
                    assert(tag_names(tags.drop_first())[k - 1] == nm);
                    assert(tag_names(tags.drop_first()).contains(nm));
                } else {
                    assert(nm == tags[0].name);
                }
            }
            if tag_names(tags.drop_first()).contains(nm) {
                let k = choose|k: int|
                    0 <= k < tag_names(tags.drop_first()).len() && tag_names(
                        tags.drop_first(),
                    )[k] == nm;
                assert(tag_names(tags)[k + 1] == nm);
                assert(tag_names(tags).contains(nm));
            }
            if nm == tags[0].name {
                assert(tag_names(tags)[0] == nm);
                assert(tag_names(tags).contains(nm));
            }
        }
    }
}

/// Law: creating a task and looking it up gives back exactly what was
/// supplied.  The new task carries the given name and due date, is not
/// completed, is stamped `created_at = now`, and its linked tag names
/// are exactly the names of the supplied tags — with no name linked
/// twice, even when two supplied tags share a name.
#[verifier::rlimit(80)]
#[verifier::spinoff_prover]
pub proof fn lemma_create_then_get(
    m: StoreModel,
    name: Seq<char>,
    due: Option<Timestamp>,
    tags: Seq<NewTagModel>,
    now: Timestamp,
)
    requires
        m.wf(),
        name.len() > 0,
        now.valid(),
        due matches Some(d) ==> d.valid(),
    ensures
        ({
            let m2 = create_model(m, name, due, tags, now);
            let id = m.next_task_id;
            &&& m2.wf()
            &&& m2.has_task(id)
            &&& m2.task(id).name == name
            &&& m2.task(id).due_date == due
            &&& m2.task(id).created_at == now
            &&& !m2.task(id).completed
            &&& m2.task(id).completed_at is None
            &&& forall|nm: Seq<char>|
                task_has_tag_named(m2, id, nm) <==> tag_names(tags).contains(nm)
            &&& forall|k: int, l: int|
                0 <= k < l < m2.linked_tags(id).len() ==> (#[trigger] m2.linked_tags(id)[k]).name
                    != (#[trigger] m2.linked_tags(id)[l]).name
        }),
{
    let id = m.next_task_id;
    let row = TaskRowModel {
        id,
        name,
        due_date: due,
        created_at: now,
        completed: false,
        completed_at: None,
    };
    let m1 = StoreModel { tasks: m.tasks.push(row), next_task_id: m.next_task_id + 1, ..m };
    assert forall|a: int, b: int|
        0 <= a < b < m1.tasks.len() implies (#[trigger] m1.tasks[a]).id != (
    #[trigger] m1.tasks[b]).id by {
        if b == m1.tasks.len() - 1 {
            assert(m1.tasks[a] == m.tasks[a]);
        }
    }
    assert forall|k: int|
        0 <= k < m1.links.len() implies m1.has_task((#[trigger] m1.links[k]).0) && m1.has_tag(
        m1.links[k].1,
    ) by {
        assert(m.has_task((#[trigger] m.links[k]).0) && m.has_tag(m.links[k].1));
        let w = choose|w: int|
            0 <= w < m.tasks.len() && (#[trigger] m.tasks[w]).id == m.links[k].0;
        assert(m1.tasks[w] == m.tasks[w]);
    }
    assert(m1.wf());
    assert(m1.tasks[m.tasks.len() as int] == row);
    assert(m1.has_task(id));
    assert forall|nm: Seq<char>| !task_has_tag_named(m1, id, nm) by {
        if task_has_tag_named(m1, id, nm) {
            let w = choose|w: int|
                0 <= w < m1.tags.len() && (#[trigger] m1.tags[w]).name == nm
                    && m1.links.contains((id, m1.tags[w].id));
            let lk = choose|lk: int|
                0 <= lk < m1.links.len() && m1.links[lk] == (id, m1.tags[w].id);
            assert(m.has_task((#[trigger] m.links[lk]).0));
            let u = choose|u: int| 0 <= u < m.tasks.len() && (#[trigger] m.tasks[u]).id == id;
            assert(m.tasks[u].id < m.next_task_id);
            assert(false);
        }
    }
    lemma_upsert_fold_names(m1, id, tags);
    let m2 = create_model(m, name, due, tags, now);
    assert(m2 == upsert_fold(m1, id, tags));
    assert(m2.tasks == m1.tasks);
    lemma_task_index_is(m2, id, m.tasks.len() as int);
    assert(m2.task(id) == row);
    let lt = m2.linked_tags(id);
    assert forall|a: int, b: int|
        0 <= a < b < m2.tags.len() implies (#[trigger] m2.tags[a]) != (
    #[trigger] m2.tags[b]) by {
        if m2.tags[a] == m2.tags[b] {
            assert(lex_lt(m2.tags[a].name, m2.tags[b].name));
            lemma_lex_irreflexive(m2.tags[a].name);
        }
    }
    lemma_filter_distinct(m2.tags, linked_to(m2.links, id));
    assert forall|k: int, l: int|
        0 <= k < l < lt.len() implies (#[trigger] lt[k]).name != (#[trigger] lt[l]).name by {
        assert(lt[k] != lt[l]);
        assert(lt.contains(lt[k]));
        assert(lt.contains(lt[l]));
        m2.tags.lemma_filter_contains_rev(linked_to(m2.links, id), lt[k]);
        m2.tags.lemma_filter_contains_rev(linked_to(m2.links, id), lt[l]);
        let wa = choose|w: int| 0 <= w < m2.tags.len() && m2.tags[w] == lt[k];
        let wb = choose|w: int| 0 <= w < m2.tags.len() && m2.tags[w] == lt[l];
        assert(wa != wb);
        if lt[k].name == lt[l].name {
            if wa < wb {
                assert(lex_lt(m2.tags[wa].name, m2.tags[wb].name));
            } else {
                assert(lex_lt(m2.tags[wb].name, m2.tags[wa].name));
            }
            lemma_lex_irreflexive(lt[k].name);
        }
    }
}

} // verus!
