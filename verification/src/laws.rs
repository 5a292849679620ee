//! Properties of whole operation sequences, proved once and for all.

use vstd::prelude::*;

use crate::json::sp_parse;
use crate::json::spec_render;
use crate::json::lemma_render_parses;
use crate::store::first_match;
use crate::store::has_id;
use crate::store::is_open;
use crate::store::mark_completed;
use crate::store::open_tasks;
use crate::task::TaskView;

verus! {

/// The file contents after appending each task of `vs`, in order, to a
/// store whose file starts as the empty list - the chain of `add`
/// operations, each loading what the previous one saved.
pub open spec fn contents_after_adds(vs: Seq<TaskView>) -> Seq<char>
    decreases vs.len(),
{
    if vs.len() == 0 {
        spec_render(Seq::empty())
    } else {
        spec_render(sp_parse(contents_after_adds(vs.drop_last()))->Some_0.push(vs.last()))
    }
}

/// After any sequence of adds to an initially empty store, loading the file
/// - which is what listing every task does - returns exactly the added
/// tasks, in insertion order.
pub proof fn lemma_adds_then_list_all(vs: Seq<TaskView>)
    ensures
        sp_parse(contents_after_adds(vs)) == Some(vs),
    decreases vs.len(),
{
    if vs.len() == 0 {
        lemma_render_parses(Seq::empty());
    } else {
        lemma_adds_then_list_all(vs.drop_last());
        assert(vs.drop_last().push(vs.last()) =~= vs);
        lemma_render_parses(vs);
    }
}

/// Completing an id that exactly one task carries hides that id from the
/// listing of open tasks, while the listing of every task keeps it.
pub proof fn lemma_complete_hides_id(vs: Seq<TaskView>, id: u32, k: int)
    requires
        first_match(vs, id, k),
        forall|j: int| 0 <= j < vs.len() && (#[trigger] vs[j]).id == id ==> j == k,
    ensures
        has_id(vs.update(k, mark_completed(vs[k])), id),
        forall|j: int|
            0 <= j < open_tasks(vs.update(k, mark_completed(vs[k]))).len() ==> (
            #[trigger] open_tasks(vs.update(k, mark_completed(vs[k])))[j]).id != id,
{
    let vs2 = vs.update(k, mark_completed(vs[k]));
    let f = vs2.filter(|t: TaskView| is_open(t));
    assert(open_tasks(vs2) == f);
    assert(vs2[k].id == id);
    assert forall|j: int| 0 <= j < f.len() implies (f[j]).id != id by {
        vs2.lemma_filter_pred(|t: TaskView| is_open(t), j);
        assert(is_open(f[j]));
        if f[j].id == id {
            assert(f.contains(f[j]));
            vs2.lemma_filter_contains_rev(|t: TaskView| is_open(t), f[j]);
            assert(vs2.contains(f[j]));
            let m = choose|m: int| 0 <= m < vs2.len() && vs2[m] == f[j];
            if m == k {
                assert(!is_open(vs2[k]));
                assert(false);
            } else {
                assert(vs2[m] == vs[m]);
                assert(vs[m].id == id);
                assert(false);
            }
        }
    }
}

} // verus!
