use vstd::prelude::*;
use crate::closure::{load_closure, models, ResultSet};
use crate::filter::{is_target, FilterModel, RelationFilter, Selection};
use crate::osm::{ObjectModel, OsmObject};

verus! {

/// The target relations of `objs`, in order.
pub open spec fn targets(f: FilterModel, objs: Seq<ObjectModel>) -> Seq<ObjectModel>
    decreases objs.len(),
{
    if objs.len() == 0 {
        Seq::empty()
    } else if is_target(f, objs.last()) {
        targets(f, objs.drop_last()).push(objs.last())
    } else {
        targets(f, objs.drop_last())
    }
}

/// The records to emit: the target relations of `results`, in order of
/// identifier.
pub fn target_records(results: &ResultSet, filter: &RelationFilter) -> (r: Vec<OsmObject>)
    requires
        filter.wf(),
    ensures
        models(r@) == targets(filter@, results@),
{
    let objects = results.objects();
    let ghost objs = results@;
    let mut r: Vec<OsmObject> = Vec::new();
    let mut i: usize = 0;
    assert(objs.subrange(0, 0) =~= Seq::<ObjectModel>::empty());
    while i < objects.len()
        invariant
            filter.wf(),
            objs == results@,
            models(objects@) == objs,
            i <= objects@.len(),
            models(r@) == targets(filter@, objs.subrange(0, i as int)),
        decreases objects@.len() - i,
    {
        assert(objs.subrange(0, i + 1).drop_last() =~= objs.subrange(0, i as int));
        assert(objects@[i as int]@ == objs[i as int]);
        if filter.is_target_relation(&objects[i]) {
            let ghost before = r@;
            r.push(objects[i].duplicate());
            assert(models(r@) =~= models(before).push(objs[i as int]));
        }
        i += 1;
    }
    assert(objs.subrange(0, i as int) =~= objs);
    r
}

/// The default mode: the closure of the candidate relations of `source`, and
/// the target relations among it.
pub fn records_of(source: &Vec<OsmObject>, filter: &RelationFilter) -> (r: Vec<OsmObject>)
    requires
        filter.wf(),
    ensures
        exists|c: Seq<ObjectModel>|
            crate::closure::is_closure(models(source@), filter@, Selection::Candidates, c)
                && models(r@) == targets(filter@, c),
{
    let closure = load_closure(source, filter, Selection::Candidates);
    target_records(&closure, filter)
}

} // verus!
