//! The store: every operation is a pure transformation from the file's
//! current contents to its next contents.
//!
//! The backing file holds a JSON array of tasks. Each operation loads the
//! whole list, applies one mutation in memory, and yields the whole list's
//! new rendering; the caller reads the file before the call and writes the
//! result after it. An operation that fails yields no new contents, so a
//! failed call never changes the file.

use vstd::prelude::*;

use crate::error::TaskError;
use crate::json::sp_parse;
use crate::json::spec_render;
use crate::json::parse_tasks;
use crate::json::render_tasks;
use crate::task::Task;
use crate::task::TaskView;

verus! {

/// Whether some task in the list carries the given id.
pub open spec fn has_id(vs: Seq<TaskView>, id: u32) -> bool {
    exists|k: int| 0 <= k < vs.len() && vs[k].id == id
}

/// Whether `k` is the first position whose task carries the given id.
pub open spec fn first_match(vs: Seq<TaskView>, id: u32, k: int) -> bool {
    &&& 0 <= k < vs.len()
    &&& vs[k].id == id
    &&& forall|j: int| 0 <= j < k ==> vs[j].id != id
}

/// The task with its completion flag set.
pub open spec fn mark_completed(v: TaskView) -> TaskView {
    TaskView { completed: true, ..v }
}

/// The task after an edit: the description replaced if one is supplied,
/// and the update timestamp refreshed.
pub open spec fn with_edit(v: TaskView, d: Option<Seq<char>>, now: Seq<char>) -> TaskView {
    TaskView {
        description: if d is Some {
            d->0
        } else {
            v.description
        },
        updated_at: now,
        ..v
    }
}

/// A task that is still open.
pub open spec fn is_open(v: TaskView) -> bool {
    !v.completed
}

/// The open tasks of a list, in their stored order.
pub open spec fn open_tasks(vs: Seq<TaskView>) -> Seq<TaskView> {
    vs.filter(|t: TaskView| is_open(t))
}

/// The text of an optional new description.
pub open spec fn desc_view(d: Option<String>) -> Option<Seq<char>> {
    match d {
        Some(s) => Some(s@),
        None => None,
    }
}

/// The rendered contents after editing the task at position `k`.
pub open spec fn edited_contents(
    vs: Seq<TaskView>,
    d: Option<Seq<char>>,
    k: int,
    now: Seq<char>,
) -> Seq<char> {
    spec_render(vs.update(k, with_edit(vs[k], d, now)))
}

/// The file contents as handed to an operation: `None` when the file does
/// not exist yet.
pub open spec fn contents_view(contents: Option<&str>) -> Option<Seq<char>> {
    match contents {
        Some(s) => Some(s@),
        None => None,
    }
}

/// What loading yields: a missing file is an empty list, and existing
/// contents must parse.
pub open spec fn spec_load(contents: Option<Seq<char>>) -> Option<Seq<TaskView>> {
    match contents {
        None => Some(Seq::empty()),
        Some(s) => sp_parse(s),
    }
}

/// Appends a task to the in-memory list.
pub fn add_task(tasks: &mut Vec<Task>, task: Task)
    ensures
        final(tasks).deep_view() == old(tasks).deep_view().push(task@),
{
    let ghost dv = tasks.deep_view();
    tasks.push(task);
    proof {
        assert(tasks.deep_view() =~= dv.push(task@));
    }
}

/// The tasks to show: everything, or only the open ones, in their stored
/// order.
pub fn list_tasks(tasks: &Vec<Task>, all: bool) -> (r: Vec<Task>)
    ensures
        all ==> r.deep_view() == tasks.deep_view(),
        !all ==> r.deep_view() == open_tasks(tasks.deep_view()),
{
    let ghost dv = tasks.deep_view();
    let mut out: Vec<Task> = Vec::new();
    let n = tasks.len();
    let mut i: usize = 0;
    proof {
        assert(out.deep_view() =~= Seq::<TaskView>::empty());
        assert(dv.take(0) =~= Seq::<TaskView>::empty());
        reveal(Seq::filter);
    }
    while i < n
        invariant
            n == tasks.len(),
            i <= n,
            dv == tasks.deep_view(),
            dv.len() == n,
            all ==> out.deep_view() == dv.take(i as int),
            !all ==> out.deep_view() == dv.take(i as int).filter(|t: TaskView| is_open(t)),
        decreases n - i,
    {
        let ghost outv = out.deep_view();
        if all || !tasks[i].completed {
            out.push(tasks[i].clone());
            proof {
                assert(tasks[i as int]@ == dv[i as int]);
                assert(out.deep_view() =~= outv.push(dv[i as int]));
            }
        }
        proof {
            reveal(Seq::filter);
            assert(dv.take(i + 1).drop_last() =~= dv.take(i as int));
            assert(dv.take(i + 1).last() == dv[i as int]);
        }
        i = i + 1;
    }
    proof {
        assert(dv.take(n as int) =~= dv);
    }
    out
}

/// Marks the first task with the given id as completed; fails, changing
/// nothing, when no task matches.
pub fn complete_task(tasks: &mut Vec<Task>, id: u32) -> (r: Result<(), TaskError>)
    ensures
        r is Ok <==> has_id(old(tasks).deep_view(), id),
        r is Ok ==> exists|k: int|
            #[trigger] first_match(old(tasks).deep_view(), id, k) && final(tasks).deep_view()
                == old(tasks).deep_view().update(k, mark_completed(old(tasks).deep_view()[k])),
        r is Err ==> *final(tasks) == *old(tasks) && (r matches Err(e) && e
            == TaskError::NotFound(id)),
{
    let ghost dv = tasks.deep_view();
    let n = tasks.len();
    let mut i: usize = 0;
    while i < n
        invariant
            n == tasks.len(),
            i <= n,
            dv == tasks.deep_view(),
            dv.len() == n,
            *tasks == *old(tasks),
            forall|j: int| 0 <= j < i ==> dv[j].id != id,
        decreases n - i,
    {
        if tasks[i].id == id {
            proof {
                assert(tasks[i as int]@ == dv[i as int]);
                assert(first_match(dv, id, i as int));
            }
            let mut t = tasks[i].clone();
            t.completed = true;
            let ghost tv = t@;
            tasks.remove(i);
            tasks.insert(i, t);
            proof {
                assert(tv == mark_completed(dv[i as int]));
                assert(tasks.deep_view() =~= dv.update(i as int, mark_completed(dv[i as int])));
            }
            return Ok(());
        }
        proof {
            assert(tasks[i as int]@ == dv[i as int]);
        }
        i = i + 1;
    }
    Err(TaskError::NotFound(id))
}

/// Removes every task with the given id; fails, changing nothing, when no
/// task matches.
pub fn delete_task(tasks: &mut Vec<Task>, id: u32) -> (r: Result<(), TaskError>)
    ensures
        r is Ok <==> has_id(old(tasks).deep_view(), id),
        r is Ok ==> final(tasks).deep_view() == old(tasks).deep_view().filter(
            |t: TaskView| t.id != id,
        ),
        r is Err ==> *final(tasks) == *old(tasks) && (r matches Err(e) && e
            == TaskError::NotFound(id)),
{
    let ghost dv = tasks.deep_view();
    let mut kept: Vec<Task> = Vec::new();
    let mut found = false;
    let n = tasks.len();
    let mut i: usize = 0;
    proof {
        assert(kept.deep_view() =~= Seq::<TaskView>::empty());
        assert(dv.take(0) =~= Seq::<TaskView>::empty());
        reveal(Seq::filter);
    }
    while i < n
        invariant
            n == tasks.len(),
            i <= n,
            dv == tasks.deep_view(),
            dv.len() == n,
            *tasks == *old(tasks),
            kept.deep_view() == dv.take(i as int).filter(|t: TaskView| t.id != id),
            found <==> exists|k: int| 0 <= k < i && dv[k].id == id,
        decreases n - i,
    {
        let ghost keptv = kept.deep_view();
        if tasks[i].id == id {
            found = true;
            proof {
                assert(tasks[i as int]@ == dv[i as int]);
            }
        } else {
            kept.push(tasks[i].clone());
            proof {
                assert(tasks[i as int]@ == dv[i as int]);
                assert(kept.deep_view() =~= keptv.push(dv[i as int]));
            }
        }
        proof {
            reveal(Seq::filter);
            assert(dv.take(i + 1).drop_last() =~= dv.take(i as int));
            assert(dv.take(i + 1).last() == dv[i as int]);
        }
        i = i + 1;
    }
    proof {
        assert(dv.take(n as int) =~= dv);
    }
    if found {
        *tasks = kept;
        Ok(())
    } else {
        Err(TaskError::NotFound(id))
    }
}

/// Rewrites the first task with the given id: replaces its description if
/// a new one is supplied, and stamps it with the given update time. Fails,
/// changing nothing, when no task matches.
pub fn edit_task(tasks: &mut Vec<Task>, id: u32, description: Option<String>, now: String) -> (r:
    Result<(), TaskError>)
    ensures
        r is Ok <==> has_id(old(tasks).deep_view(), id),
        r is Ok ==> exists|k: int|
            #[trigger] first_match(old(tasks).deep_view(), id, k) && final(tasks).deep_view()
                == old(tasks).deep_view().update(
                k,
                with_edit(
                    old(tasks).deep_view()[k],
                    match description {
                        Some(d) => Some(d@),
                        None => None,
                    },
                    now@,
                ),
            ),
        r is Err ==> *final(tasks) == *old(tasks) && (r matches Err(e) && e
            == TaskError::NotFound(id)),
{
    let ghost dv = tasks.deep_view();
    let n = tasks.len();
    let mut i: usize = 0;
    while i < n
        invariant
            n == tasks.len(),
            i <= n,
            dv == tasks.deep_view(),
            dv.len() == n,
            *tasks == *old(tasks),
            forall|j: int| 0 <= j < i ==> dv[j].id != id,
        decreases n - i,
    {
        if tasks[i].id == id {
            proof {
                assert(tasks[i as int]@ == dv[i as int]);
                assert(first_match(dv, id, i as int));
            }
            let mut t = tasks[i].clone();
            match description {
                Some(d) => {
                    t.description = d;
                },
                None => {},
            }
            t.updated_at = now;
            let ghost tv = t@;
            tasks.remove(i);
            tasks.insert(i, t);
            proof {
                assert(tasks.deep_view() =~= dv.update(i as int, tv));
            }
            return Ok(());
        }
        proof {
            assert(tasks[i as int]@ == dv[i as int]);
        }
        i = i + 1;
    }
    Err(TaskError::NotFound(id))
}

/// The store over a JSON file: it holds the file's path and turns the
/// file's contents into its next contents, one operation at a time.
pub struct JsonStore {
    path: String,
}

impl JsonStore {
    /// The configured location of the backing file.
    pub closed spec fn spec_path(&self) -> Seq<char> {
        self.path@
    }

    /// Creates a store over the file at `path`.
    pub fn new(path: String) -> (r: JsonStore)
        ensures
            r.spec_path() == path@,
    {
        JsonStore { path }
    }

    /// Path to the store.
    pub fn path(&self) -> (r: &String)
        ensures
            r@ == self.spec_path(),
    {
        &self.path
    }

    /// Reads the task list out of the file's contents; a missing file is an
    /// empty list, and contents that are not a well-formed task list are a
    /// serialization failure.
    pub fn load(&self, contents: Option<&str>) -> (r: Result<Vec<Task>, TaskError>)
        ensures
            r is Ok <==> spec_load(contents_view(contents)) is Some,
            r matches Ok(ts) ==> spec_load(contents_view(contents)) == Some(ts.deep_view()),
            r matches Err(e) ==> e is SerdeError,
    {
        match contents {
            None => {
                let ts: Vec<Task> = Vec::new();
                proof {
                    assert(ts.deep_view() =~= Seq::<TaskView>::empty());
                }
                Ok(ts)
            },
            Some(s) => match parse_tasks(s) {
                Some(ts) => Ok(ts),
                None => Err(TaskError::SerdeError(String::from_str("not a task list"))),
            },
        }
    }

    /// Renders the task list as the file's entire new contents.
    pub fn save(&self, tasks: &Vec<Task>) -> (r: String)
        ensures
            r@ == spec_render(tasks.deep_view()),
    {
        render_tasks(tasks)
    }

    /// Appends the task and yields the file's new contents.
    pub fn add(&self, contents: Option<&str>, task: Task) -> (r: Result<String, TaskError>)
        ensures
            r is Ok <==> spec_load(contents_view(contents)) is Some,
            r matches Ok(out) ==> out@ == spec_render(
                spec_load(contents_view(contents))->Some_0.push(task@),
            ),
            r matches Err(e) ==> e is SerdeError,
    {
        let mut tasks = match self.load(contents) {
            Ok(ts) => ts,
            Err(e) => {
                return Err(e);
            },
        };
        add_task(&mut tasks, task);
        Ok(self.save(&tasks))
    }

    /// The stored tasks, all of them or only the open ones, in stored order.
    pub fn list(&self, contents: Option<&str>, all: bool) -> (r: Result<Vec<Task>, TaskError>)
        ensures
            r is Ok <==> spec_load(contents_view(contents)) is Some,
            r matches Ok(ts) ==> {
                let loaded = spec_load(contents_view(contents))->Some_0;
                &&& all ==> ts.deep_view() == loaded
                &&& !all ==> ts.deep_view() == open_tasks(loaded)
            },
            r matches Err(e) ==> e is SerdeError,
    {
        let tasks = match self.load(contents) {
            Ok(ts) => ts,
            Err(e) => {
                return Err(e);
            },
        };
        Ok(list_tasks(&tasks, all))
    }

    /// Marks the first task with the given id as completed and yields the
    /// file's new contents; when no task matches, fails with `NotFound` and
    /// yields none, leaving the file as it was.
    pub fn complete(&self, contents: Option<&str>, id: u32) -> (r: Result<String, TaskError>)
        ensures
            ({
                let loaded = spec_load(contents_view(contents));
                match r {
                    Ok(out) => loaded is Some && has_id(loaded->0, id) && exists|k: int|
                        #[trigger] first_match(loaded->0, id, k) && out@ == spec_render(
                            loaded->0.update(k, mark_completed(loaded->0[k])),
                        ),
                    Err(e) => (loaded is None && e is SerdeError) || (loaded is Some && !has_id(
                        loaded->0,
                        id,
                    ) && e == TaskError::NotFound(id)),
                }
            }),
    {
        let mut tasks = match self.load(contents) {
            Ok(ts) => ts,
            Err(e) => {
                return Err(e);
            },
        };
        let ghost dv0 = tasks.deep_view();
        match complete_task(&mut tasks, id) {
            Ok(()) => {
                let out = self.save(&tasks);
                proof {
                    let loaded = spec_load(contents_view(contents));
                    assert(loaded == Some(dv0));
                    let k = choose|k: int|
                        #[trigger] first_match(dv0, id, k) && tasks.deep_view() == dv0.update(
                            k,
                            mark_completed(dv0[k]),
                        );
                    assert(first_match(loaded->0, id, k));
                    assert(out@ == spec_render(loaded->0.update(k, mark_completed(loaded->0[k]))));
                }
                Ok(out)
            },
            Err(e) => Err(e),
        }
    }

    /// Removes every task with the given id and yields the file's new
    /// contents; when no task matches, fails with `NotFound` and yields
    /// none, leaving the file as it was.
    pub fn delete(&self, contents: Option<&str>, id: u32) -> (r: Result<String, TaskError>)
        ensures
            ({
                let loaded = spec_load(contents_view(contents));
                match r {
                    Ok(out) => loaded is Some && has_id(loaded->0, id) && out@ == spec_render(
                        loaded->0.filter(|t: TaskView| t.id != id),
                    ),
                    Err(e) => (loaded is None && e is SerdeError) || (loaded is Some && !has_id(
                        loaded->0,
                        id,
                    ) && e == TaskError::NotFound(id)),
                }
            }),
    {
        let mut tasks = match self.load(contents) {
            Ok(ts) => ts,
            Err(e) => {
                return Err(e);
            },
        };
        match delete_task(&mut tasks, id) {
            Ok(()) => Ok(self.save(&tasks)),
            Err(e) => Err(e),
        }
    }

    /// Rewrites the first task with the given id, stamping it with the
    /// current time, and yields the file's new contents; when no task
    /// matches, fails with `NotFound` and yields none, leaving the file as
    /// it was.
    pub fn edit(&self, contents: Option<&str>, id: u32, description: Option<String>) -> (r: Result<
        String,
        TaskError,
    >)
        ensures
            ({
                let loaded = spec_load(contents_view(contents));
                match r {
                    Ok(out) => loaded is Some && has_id(loaded->0, id) && exists|k: int, now: Seq<char>|
                        first_match(loaded->0, id, k) && out@ == #[trigger] edited_contents(
                            loaded->0,
                            desc_view(description),
                            k,
                            now,
                        ),
                    Err(e) => (loaded is None && e is SerdeError) || (loaded is Some && !has_id(
                        loaded->0,
                        id,
                    ) && e == TaskError::NotFound(id)),
                }
            }),
    {
        let mut tasks = match self.load(contents) {
            Ok(ts) => ts,
            Err(e) => {
                return Err(e);
            },
        };
        let ghost dv0 = tasks.deep_view();
        let ghost dd = desc_view(description);
        let now = crate::task::now_rfc3339();
        let ghost nv = now@;
        match edit_task(&mut tasks, id, description, now) {
            Ok(()) => {
                let out = self.save(&tasks);
                proof {
                    let loaded = spec_load(contents_view(contents));
                    assert(loaded == Some(dv0));
                    let k = choose|k: int|
                        #[trigger] first_match(dv0, id, k) && tasks.deep_view() == dv0.update(
                            k,
                            with_edit(dv0[k], dd, nv),
                        );
                    assert(first_match(loaded->0, id, k));
                    assert(out@ == edited_contents(loaded->0, dd, k, nv));
                }
                Ok(out)
            },
            Err(e) => Err(e),
        }
    }
}

} // verus!
