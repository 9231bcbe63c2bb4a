use vstd::prelude::*;
use itertools::Itertools;
use crate::closure::{is_closure, load_closure, models, ResultSet};
use crate::filter::{boundary_key, is_candidate, FilterModel, RelationFilter, Selection};
use crate::osm::{tag_value, ObjectModel, OsmObject};

verus! {

broadcast use {vstd::seq_lib::to_multiset_len, vstd::seq_lib::to_multiset_contains};

pub open spec fn opt_view(v: Option<String>) -> Option<Seq<char>> {
    match v {
        Some(s) => Some(s@),
        None => None,
    }
}

/// The boundary type of each candidate relation of `objs`, in order; a
/// relation without one gives `None`.
pub open spec fn boundary_values(f: FilterModel, objs: Seq<ObjectModel>) -> Seq<Option<Seq<char>>>
    decreases objs.len(),
{
    if objs.len() == 0 {
        Seq::empty()
    } else {
        let prev = boundary_values(f, objs.drop_last());
        if is_candidate(f, objs.last()) {
            prev.push(tag_value(objs.last().tags, boundary_key()))
        } else {
            prev
        }
    }
}

/// The values of `s`, each once, in order of first occurrence.
pub open spec fn distinct(s: Seq<Option<Seq<char>>>) -> Seq<Option<Seq<char>>>
    decreases s.len(),
{
    if s.len() == 0 {
        Seq::empty()
    } else {
        let prev = distinct(s.drop_last());
        if prev.contains(s.last()) {
            prev
        } else {
            prev.push(s.last())
        }
    }
}

/// How many times `v` occurs in `s`.
pub open spec fn occurrences(s: Seq<Option<Seq<char>>>, v: Option<Seq<char>>) -> nat
    decreases s.len(),
{
    if s.len() == 0 {
        0
    } else {
        occurrences(s.drop_last(), v) + if s.last() == v { 1nat } else { 0nat }
    }
}

/// `x` comes before `y` in `d`.
pub open spec fn precedes(d: Seq<Option<Seq<char>>>, x: Option<Seq<char>>, y: Option<Seq<char>>) -> bool {
    exists|a: int, b: int| 0 <= a < b < d.len() && d[a] == x && d[b] == y
}

/// `r` tallies `vals`: one entry per distinct value with its number of
/// occurrences, by count descending, equal counts in order of first occurrence.
pub open spec fn is_tally(vals: Seq<Option<Seq<char>>>, r: Seq<(Option<String>, usize)>) -> bool {
    let d = distinct(vals);
    &&& r.len() == d.len()
    &&& forall|i: int| 0 <= i < r.len() ==> d.contains(opt_view(#[trigger] r[i].0))
    &&& forall|i: int| 0 <= i < r.len() ==> #[trigger] r[i].1 == occurrences(vals, opt_view(r[i].0))
    &&& forall|i: int, j: int|
        0 <= i < j < r.len() ==> #[trigger] r[i].1 > #[trigger] r[j].1 || (r[i].1 == r[j].1 && precedes(
            d,
            opt_view(r[i].0),
            opt_view(r[j].0),
        ))
}

/// Relies on itertools::Itertools::sorted_by, a stable sort, here ordering
/// pairs by their first component, largest first.
#[verifier::external_body]
fn sort_by_count_desc(v: Vec<(usize, usize)>) -> (r: Vec<(usize, usize)>)
    ensures
        r@.to_multiset() == v@.to_multiset(),
        forall|i: int, j: int| 0 <= i < j < r@.len() ==> r@[i].0 >= r@[j].0,
        forall|i: int, j: int|
            0 <= i < j < r@.len() && r@[i].0 == r@[j].0 ==> exists|a: int, b: int|
                0 <= a < b < v@.len() && v@[a] == r@[i] && v@[b] == r@[j],
{
    v.into_iter().sorted_by(|a, b| b.0.cmp(&a.0)).collect()
}

fn copy_value(v: &Option<String>) -> (r: Option<String>)
    ensures
        opt_view(r) == opt_view(*v),
{
    match v {
        Some(s) => Some(s.clone()),
        None => None,
    }
}

fn same_value(a: &Option<String>, b: Option<&String>) -> (r: bool)
    ensures
        r == (opt_view(*a) == match b {
            Some(s) => Some(s@),
            None => None::<Seq<char>>,
        }),
{
    match (a, b) {
        (Some(x), Some(y)) => *x == *y,
        (None, None) => true,
        _ => false,
    }
}

proof fn lemma_boundary_values_step(f: FilterModel, objs: Seq<ObjectModel>, i: int)
    requires
        0 <= i < objs.len(),
    ensures
        objs.subrange(0, i + 1).drop_last() == objs.subrange(0, i),
        objs.subrange(0, i + 1).last() == objs[i],
{
    assert(objs.subrange(0, i + 1).drop_last() =~= objs.subrange(0, i));
}

proof fn lemma_not_in_distinct(s: Seq<Option<Seq<char>>>, v: Option<Seq<char>>)
    requires
        !distinct(s).contains(v),
    ensures
        occurrences(s, v) == 0,
    decreases s.len(),
{
    if s.len() > 0 {
        let prev = distinct(s.drop_last());
        if prev.contains(v) {
            let h = choose|h: int| 0 <= h < prev.len() && prev[h] == v;
            if !prev.contains(s.last()) {
                assert(distinct(s)[h] == v);
            }
        }
        if s.last() == v {
            if !prev.contains(s.last()) {
                assert(distinct(s)[prev.len() as int] == v);
            }
        }
        lemma_not_in_distinct(s.drop_last(), v);
    }
}

proof fn lemma_distinct_unique(s: Seq<Option<Seq<char>>>)
    ensures
        forall|a: int, b: int| 0 <= a < b < distinct(s).len() ==> distinct(s)[a] != distinct(s)[b],
    decreases s.len(),
{
    if s.len() > 0 {
        lemma_distinct_unique(s.drop_last());
        let prev = distinct(s.drop_last());
        if !prev.contains(s.last()) {
            assert forall|a: int, b: int| 0 <= a < b < distinct(s).len() implies distinct(s)[a] != distinct(s)[b] by {
                if b == prev.len() {
                    assert(distinct(s)[a] == prev[a]);
                }
            }
        }
    }
}

/// Counts the candidate relations of `results` by boundary type (relations
/// without one are counted under `None`), largest count first; equal counts
/// keep the order in which their values first occur.
pub fn summarize(results: &ResultSet, filter: &RelationFilter) -> (r: Vec<(Option<String>, usize)>)
    requires
        filter.wf(),
    ensures
        is_tally(boundary_values(filter@, results@), r@),
{
    let objects = results.objects();
    let ghost objs = results@;
    let ghost f = filter@;
    let mut groups: Vec<(Option<String>, usize)> = Vec::new();
    let mut i: usize = 0;
    assert(objs.subrange(0, 0) =~= Seq::<ObjectModel>::empty());
    while i < objects.len()
        invariant
            filter.wf(),
            f == filter@,
            objs == results@,
            crate::closure::models(objects@) == objs,
            i <= objects@.len(),
            groups@.len() == distinct(boundary_values(f, objs.subrange(0, i as int))).len(),
            forall|g: int| 0 <= g < groups@.len() ==> opt_view(#[trigger] groups@[g].0) == distinct(
                boundary_values(f, objs.subrange(0, i as int)),
            )[g],
            forall|g: int| 0 <= g < groups@.len() ==> #[trigger] groups@[g].1 == occurrences(
                boundary_values(f, objs.subrange(0, i as int)),
                opt_view(groups@[g].0),
            ),
            forall|g: int| 0 <= g < groups@.len() ==> #[trigger] groups@[g].1 <= i,
        decreases objects@.len() - i,
    {
        let ghost prev = boundary_values(f, objs.subrange(0, i as int));
        let ghost dprev = distinct(prev);
        proof {
            lemma_boundary_values_step(f, objs, i as int);
        }
        let obj = &objects[i];
        assert(obj@ == objs[i as int]);
        if filter.is_candidate_relation(obj) {
            let b = filter.boundary_of(obj);
            let ghost v = tag_value(objs[i as int].tags, boundary_key());
            let ghost cur = prev.push(v);
            assert(boundary_values(f, objs.subrange(0, i + 1)) == cur);
            assert(cur.drop_last() =~= prev);
            let mut g: usize = 0;
            let mut found = false;
            while !found && g < groups.len()
                invariant
                    g <= groups@.len(),
                    groups@.len() == dprev.len(),
                    forall|h: int| 0 <= h < groups@.len() ==> opt_view(#[trigger] groups@[h].0) == dprev[h],
                    found ==> g < groups@.len() && opt_view(groups@[g as int].0) == v,
                    !found ==> forall|h: int| 0 <= h < g ==> opt_view(#[trigger] groups@[h].0) != v,
                    v == match b {
                        Some(s) => Some(s@),
                        None => None::<Seq<char>>,
                    },
                decreases groups@.len() - g + (if found { 0int } else { 1int }),
                            {
                if same_value(&groups[g].0, b) {
                    found = true;
                } else {
                    g += 1;
                }
            }
            if found {
                assert(dprev.contains(v)) by {
                    assert(dprev[g as int] == v);
                }
                assert(distinct(cur) == dprev);
                let c = groups[g].1;
                let val = copy_value(&groups[g].0);
                let ghost old_groups = groups@;
                groups.set(g, (val, c + 1));
                assert forall|h: int| 0 <= h < groups@.len() implies #[trigger] groups@[h].1 == occurrences(
                    cur,
                    opt_view(groups@[h].0),
                ) by {
                    assert(opt_view(groups@[h].0) == opt_view(old_groups[h].0));
                    if h != g {
                        lemma_distinct_unique(prev);
                        assert(dprev[h] != dprev[g as int]);
                    }
                }
            } else {
                assert(!dprev.contains(v)) by {
                    if dprev.contains(v) {
                        let h = choose|h: int| 0 <= h < dprev.len() && dprev[h] == v;
                        assert(opt_view(groups@[h].0) == v);
                    }
                }
                assert(distinct(cur) == dprev.push(v));
                let val = match b {
                    Some(s) => Some(s.clone()),
                    None => None,
                };
                proof {
                    lemma_not_in_distinct(prev, v);
                }
                let ghost old_groups = groups@;
                groups.push((val, 1));
                assert forall|h: int| 0 <= h < groups@.len() implies #[trigger] groups@[h].1 == occurrences(
                    cur,
                    opt_view(groups@[h].0),
                ) by {
                    if h < old_groups.len() {
                        assert(groups@[h] == old_groups[h]);
                    }
                }
            }
        } else {
            assert(boundary_values(f, objs.subrange(0, i + 1)) == prev);
        }
        i += 1;
    }
    assert(objs.subrange(0, i as int) =~= objs);
    let ghost vals = boundary_values(f, objs);
    let ghost d = distinct(vals);
    assert(groups@.len() == d.len());
    // order the groups by count, keeping first occurrence among equal counts
    let mut pairs: Vec<(usize, usize)> = Vec::new();
    let mut g: usize = 0;
    while g < groups.len()
        invariant
            g <= groups@.len(),
            groups@.len() == d.len(),
            forall|h: int| 0 <= h < groups@.len() ==> opt_view(#[trigger] groups@[h].0) == d[h],
            forall|h: int| 0 <= h < groups@.len() ==> #[trigger] groups@[h].1 == occurrences(vals, opt_view(groups@[h].0)),
            pairs@.len() == g,
            forall|h: int| 0 <= h < g ==> #[trigger] pairs@[h] == (groups@[h].1, h as usize),
        decreases groups@.len() - g,
    {
        pairs.push((groups[g].1, g));
        g += 1;
    }
    let sorted = sort_by_count_desc(pairs);
    proof {
        assert(sorted@.to_multiset().len() == pairs@.to_multiset().len());
        assert forall|k: int| 0 <= k < sorted@.len() implies pairs@.contains(#[trigger] sorted@[k]) by {
            assert(sorted@.to_multiset().count(sorted@[k]) > 0);
        }
    }
    let mut r: Vec<(Option<String>, usize)> = Vec::new();
    let mut k: usize = 0;
    while k < sorted.len()
        invariant
            k <= sorted@.len(),
            sorted@.len() == groups@.len(),
            groups@.len() == d.len(),
            forall|h: int| 0 <= h < groups@.len() ==> opt_view(#[trigger] groups@[h].0) == d[h],
            forall|h: int| 0 <= h < groups@.len() ==> #[trigger] groups@[h].1 == occurrences(vals, opt_view(groups@[h].0)),
            r@.len() == k,
            forall|h: int| 0 <= h < sorted@.len() ==> pairs@.contains(#[trigger] sorted@[h]),
            forall|h: int| 0 <= h < groups@.len() ==> #[trigger] pairs@[h] == (groups@[h].1, h as usize),
            pairs@.len() == groups@.len(),
            forall|h: int|
                0 <= h < k ==> #[trigger] r@[h].1 == sorted@[h].0 && sorted@[h].1 < groups@.len() && opt_view(
                    r@[h].0,
                ) == opt_view(groups@[sorted@[h].1 as int].0),
        decreases sorted@.len() - k,
    {
        let (c, ix) = sorted[k];
        let ghost w = choose|w: int| 0 <= w < pairs@.len() && pairs@[w] == sorted@[k as int];
        assert(pairs@[w] == (groups@[w].1, w as usize));
        let val = copy_value(&groups[ix].0);
        r.push((val, c));
        k += 1;
    }
    proof {
        assert forall|i: int| 0 <= i < r@.len() implies d.contains(opt_view(#[trigger] r@[i].0)) by {
            assert(r@[i].1 == sorted@[i].0);
            assert(opt_view(groups@[sorted@[i].1 as int].0) == d[sorted@[i].1 as int]);
        }
        assert forall|i: int| 0 <= i < r@.len() implies #[trigger] r@[i].1 == occurrences(
            vals,
            opt_view(r@[i].0),
        ) by {
            let w = choose|w: int| 0 <= w < pairs@.len() && pairs@[w] == sorted@[i];
            assert(pairs@[w] == (groups@[w].1, w as usize));
        }
        assert forall|i: int, j: int| 0 <= i < j < r@.len() implies #[trigger] r@[i].1 > #[trigger] r@[j].1 || (
        r@[i].1 == r@[j].1 && precedes(d, opt_view(r@[i].0), opt_view(r@[j].0))) by {
            if r@[i].1 == r@[j].1 {
                let (a, b) = choose|a: int, b: int|
                    0 <= a < b < pairs@.len() && pairs@[a] == sorted@[i] && pairs@[b] == sorted@[j];
                assert(pairs@[a] == (groups@[a].1, a as usize));
                assert(pairs@[b] == (groups@[b].1, b as usize));
                assert(d[a] == opt_view(r@[i].0));
                assert(d[b] == opt_view(r@[j].0));
            }
        }
    }
    r
}

/// The stats mode: the closure of the target relations of `source`, tallied
/// by boundary type.
pub fn stats_of(source: &Vec<OsmObject>, filter: &RelationFilter) -> (r: Vec<(Option<String>, usize)>)
    requires
        filter.wf(),
    ensures
        exists|c: Seq<ObjectModel>|
            is_closure(models(source@), filter@, Selection::Targets, c) && is_tally(boundary_values(filter@, c), r@),
{
    let closure = load_closure(source, filter, Selection::Targets);
    summarize(&closure, filter)
}

/// The number of candidate relations in `objs`.
pub open spec fn candidate_count(f: FilterModel, objs: Seq<ObjectModel>) -> nat
    decreases objs.len(),
{
    if objs.len() == 0 {
        0
    } else {
        candidate_count(f, objs.drop_last()) + if is_candidate(f, objs.last()) { 1nat } else { 0nat }
    }
}

/// The sum of the counts of a tally.
pub open spec fn total(r: Seq<(Option<String>, usize)>) -> nat
    decreases r.len(),
{
    if r.len() == 0 {
        0
    } else {
        total(r.drop_last()) + r.last().1 as nat
    }
}

spec fn sum_occ(vals: Seq<Option<Seq<char>>>, keys: Seq<Option<Seq<char>>>) -> nat
    decreases keys.len(),
{
    if keys.len() == 0 {
        0
    } else {
        sum_occ(vals, keys.drop_last()) + occurrences(vals, keys.last())
    }
}

spec fn tally_keys(r: Seq<(Option<String>, usize)>) -> Seq<Option<Seq<char>>> {
    r.map_values(|p: (Option<String>, usize)| opt_view(p.0))
}

proof fn lemma_absent_no_occurrences(s: Seq<Option<Seq<char>>>, v: Option<Seq<char>>)
    requires
        !s.contains(v),
    ensures
        occurrences(s, v) == 0,
    decreases s.len(),
{
    if s.len() > 0 {
        assert(!s.drop_last().contains(v)) by {
            if s.drop_last().contains(v) {
                let i = choose|i: int| 0 <= i < s.drop_last().len() && s.drop_last()[i] == v;
                assert(s[i] == v);
            }
        }
        lemma_absent_no_occurrences(s.drop_last(), v);
    }
}

proof fn lemma_unique_once(keys: Seq<Option<Seq<char>>>, v: Option<Seq<char>>)
    requires
        keys.no_duplicates(),
        keys.contains(v),
    ensures
        occurrences(keys, v) == 1,
    decreases keys.len(),
{
    let prev = keys.drop_last();
    assert(prev.no_duplicates());
    if keys.last() == v {
        assert(!prev.contains(v)) by {
            if prev.contains(v) {
                let i = choose|i: int| 0 <= i < prev.len() && prev[i] == v;
                assert(keys[i] == keys[keys.len() - 1]);
            }
        }
        lemma_absent_no_occurrences(prev, v);
    } else {
        let i = choose|i: int| 0 <= i < keys.len() && keys[i] == v;
        assert(prev[i] == v);
        lemma_unique_once(prev, v);
    }
}

proof fn lemma_sum_occ_split(vals: Seq<Option<Seq<char>>>, keys: Seq<Option<Seq<char>>>)
    requires
        vals.len() > 0,
    ensures
        sum_occ(vals, keys) == sum_occ(vals.drop_last(), keys) + occurrences(keys, vals.last()),
    decreases keys.len(),
{
    if keys.len() > 0 {
        lemma_sum_occ_split(vals, keys.drop_last());
    }
}

proof fn lemma_sum_occ_covering(vals: Seq<Option<Seq<char>>>, keys: Seq<Option<Seq<char>>>)
    requires
        keys.no_duplicates(),
        forall|i: int| 0 <= i < vals.len() ==> keys.contains(#[trigger] vals[i]),
    ensures
        sum_occ(vals, keys) == vals.len(),
    decreases vals.len(),
{
    if vals.len() == 0 {
        lemma_sum_occ_empty(vals, keys);
    } else {
        let prev = vals.drop_last();
        assert forall|i: int| 0 <= i < prev.len() implies keys.contains(#[trigger] prev[i]) by {
            assert(prev[i] == vals[i]);
        }
        lemma_sum_occ_covering(prev, keys);
        lemma_sum_occ_split(vals, keys);
        assert(keys.contains(vals[vals.len() - 1]));
        lemma_unique_once(keys, vals.last());
    }
}

proof fn lemma_sum_occ_empty(vals: Seq<Option<Seq<char>>>, keys: Seq<Option<Seq<char>>>)
    requires
        vals.len() == 0,
    ensures
        sum_occ(vals, keys) == 0,
    decreases keys.len(),
{
    if keys.len() > 0 {
        lemma_sum_occ_empty(vals, keys.drop_last());
    }
}

proof fn lemma_total_is_sum_occ(vals: Seq<Option<Seq<char>>>, r: Seq<(Option<String>, usize)>)
    requires
        forall|i: int| 0 <= i < r.len() ==> #[trigger] r[i].1 == occurrences(vals, opt_view(r[i].0)),
    ensures
        total(r) == sum_occ(vals, tally_keys(r)),
    decreases r.len(),
{
    if r.len() > 0 {
        let prev = r.drop_last();
        assert forall|i: int| 0 <= i < prev.len() implies #[trigger] prev[i].1 == occurrences(vals, opt_view(prev[i].0)) by {
            assert(prev[i] == r[i]);
        }
        lemma_total_is_sum_occ(vals, prev);
        assert(tally_keys(r).drop_last() =~= tally_keys(prev));
        assert(r[r.len() - 1].1 == occurrences(vals, opt_view(r[r.len() - 1].0)));
    }
}

proof fn lemma_in_distinct(s: Seq<Option<Seq<char>>>, i: int)
    requires
        0 <= i < s.len(),
    ensures
        distinct(s).contains(s[i]),
    decreases s.len(),
{
    let prev = distinct(s.drop_last());
    if i < s.len() - 1 {
        lemma_in_distinct(s.drop_last(), i);
        let a = choose|a: int| 0 <= a < prev.len() && prev[a] == s.drop_last()[i];
        assert(distinct(s)[a] == s[i]);
    } else if !prev.contains(s.last()) {
        assert(distinct(s)[prev.len() as int] == s[i]);
    }
}

proof fn lemma_candidate_count(f: FilterModel, objs: Seq<ObjectModel>)
    ensures
        boundary_values(f, objs).len() == candidate_count(f, objs),
    decreases objs.len(),
{
    if objs.len() > 0 {
        lemma_candidate_count(f, objs.drop_last());
    }
}

/// The counts of a tally of the candidate relations of `objs` add up to the
/// number of those relations, and never increase along the tally.
pub proof fn lemma_tally_total(f: FilterModel, objs: Seq<ObjectModel>, r: Seq<(Option<String>, usize)>)
    requires
        is_tally(boundary_values(f, objs), r),
    ensures
        total(r) == candidate_count(f, objs),
        forall|i: int, j: int| 0 <= i < j < r.len() ==> r[i].1 >= r[j].1,
{
    broadcast use vstd::seq_lib::seq_to_set_is_finite;

    let vals = boundary_values(f, objs);
    let d = distinct(vals);
    let keys = tally_keys(r);
    lemma_distinct_unique(vals);
    assert forall|i: int, j: int| 0 <= i < j < r.len() implies r[i].1 >= r[j].1 by {
        assert(r[i].1 > r[j].1 || r[i].1 == r[j].1);
    }
    assert(keys.no_duplicates()) by {
        assert forall|i: int, j: int| 0 <= i < keys.len() && 0 <= j < keys.len() && i != j implies keys[i] != keys[j] by {
            let (a, b) = if i < j { (i, j) } else { (j, i) };
            assert(r[a].1 > r[b].1 || (r[a].1 == r[b].1 && precedes(d, opt_view(r[a].0), opt_view(r[b].0))));
        }
    }
    assert(d.no_duplicates());
    keys.unique_seq_to_set();
    d.unique_seq_to_set();
    assert(keys.to_set().subset_of(d.to_set())) by {
        assert forall|x: Option<Seq<char>>| keys.to_set().contains(x) implies d.to_set().contains(x) by {
            let i = choose|i: int| 0 <= i < keys.len() && keys[i] == x;
            assert(d.contains(opt_view(r[i].0)));
        }
    }
    assert forall|i: int| 0 <= i < vals.len() implies keys.contains(#[trigger] vals[i]) by {
        lemma_in_distinct(vals, i);
        let v = vals[i];
        assert(d.to_set().contains(v));
        if !keys.to_set().contains(v) {
            assert(keys.to_set().subset_of(d.to_set().remove(v)));
            vstd::set_lib::lemma_len_subset(keys.to_set(), d.to_set().remove(v));
        }
    }
    lemma_sum_occ_covering(vals, keys);
    lemma_total_is_sum_occ(vals, r);
    lemma_candidate_count(f, objs);
}

} // verus!
