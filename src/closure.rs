use vstd::prelude::*;
use crate::filter::{selects, FilterModel, RelationFilter, Selection};
use crate::osm::{deps, key_of, lemma_key_injective, ObjectModel, OsmObject};

verus! {

/// Strictly increasing integers.
pub open spec fn increasing(s: Seq<u128>) -> bool {
    forall|i: int, j: int| 0 <= i < j < s.len() ==> s[i] < s[j]
}

pub open spec fn models(v: Seq<OsmObject>) -> Seq<ObjectModel> {
    v.map_values(|o: OsmObject| o@)
}

/// Objects in strictly increasing order of identifier.
pub open spec fn sorted_by_id(objs: Seq<ObjectModel>) -> bool {
    forall|i: int, j: int| 0 <= i < j < objs.len() ==> key_of(objs[i].id) < key_of(objs[j].id)
}

pub open spec fn has_key(objs: Seq<ObjectModel>, k: int) -> bool {
    exists|j: int| 0 <= j < objs.len() && key_of(#[trigger] objs[j].id) == k
}

/// Whether some object of `objs` refers to the identifier with key `k`.
pub open spec fn refers_to(objs: Seq<ObjectModel>, k: int) -> bool {
    exists|j: int, d: int|
        0 <= j < objs.len() && 0 <= d < deps(objs[j]).len() && key_of(#[trigger] deps(objs[j])[d]) == k
}

/// A set of keys that holds every selected object of `src` and, with each
/// object of `src` it holds, every object of `src` that it refers to.
pub open spec fn closed_under(src: Seq<ObjectModel>, f: FilterModel, sel: Selection, s: Set<int>) -> bool {
    &&& forall|i: int| 0 <= i < src.len() && selects(f, sel, #[trigger] src[i]) ==> s.contains(key_of(src[i].id))
    &&& forall|i: int, d: int|
        0 <= i < src.len() && s.contains(key_of(src[i].id)) && 0 <= d < deps(src[i]).len() && has_key(
            src,
            key_of(#[trigger] deps(src[i])[d]),
        ) ==> s.contains(key_of(deps(src[i])[d]))
}

pub open spec fn key_set(objs: Seq<ObjectModel>) -> Set<int> {
    Set::new(|k: int| has_key(objs, k))
}

/// `r` is the dependency closure of the objects of `src` selected by `sel`:
/// ordered by identifier, made of objects of `src`, holding every selected
/// object and every object of `src` that one of its objects refers to, and
/// contained in every set of keys closed in that way.
pub open spec fn is_closure(src: Seq<ObjectModel>, f: FilterModel, sel: Selection, r: Seq<ObjectModel>) -> bool {
    &&& sorted_by_id(r)
    &&& forall|j: int| 0 <= j < r.len() ==> src.contains(#[trigger] r[j])
    &&& forall|p: int| 0 <= p < src.len() && selects(f, sel, #[trigger] src[p]) ==> has_key(r, key_of(src[p].id))
    &&& forall|q: int, d: int|
        0 <= q < r.len() && 0 <= d < deps(r[q]).len() && has_key(src, key_of(#[trigger] deps(r[q])[d]))
            ==> has_key(r, key_of(deps(r[q])[d]))
    &&& forall|s: Set<int>| #[trigger] closed_under(src, f, sel, s) ==> key_set(r).subset_of(s)
}

/// Finds `k` in a strictly increasing vector: whether it is there, and the
/// position where it is or would go.
fn search(v: &Vec<u128>, k: u128) -> (r: (bool, usize))
    requires
        increasing(v@),
    ensures
        r.1 <= v@.len(),
        r.0 ==> r.1 < v@.len() && v@[r.1 as int] == k,
        !r.0 ==> (forall|i: int| 0 <= i < r.1 ==> v@[i] < k) && (forall|i: int|
            r.1 <= i < v@.len() ==> v@[i] > k),
{
    let mut lo: usize = 0;
    let mut hi: usize = v.len();
    while lo < hi
        invariant
            lo <= hi <= v@.len(),
            increasing(v@),
            forall|i: int| 0 <= i < lo ==> v@[i] < k,
            forall|i: int| hi <= i < v@.len() ==> v@[i] > k,
        decreases hi - lo,
    {
        let mid = lo + (hi - lo) / 2;
        if v[mid] == k {
            return (true, mid);
        } else if v[mid] < k {
            lo = mid + 1;
        } else {
            hi = mid;
        }
    }
    (false, lo)
}

/// Collects objects that a predicate selects, and the objects they depend on,
/// over repeated passes on a source. Each pass offers every object of the
/// source in turn; passes repeat until one adds nothing.
pub struct ClosureBuilder {
    keys: Vec<u128>,
    objects: Vec<OsmObject>,
    wanted: Vec<u128>,
    grew: bool,
}

impl ClosureBuilder {
    /// The objects collected so far, in order of identifier.
    pub closed spec fn objects(&self) -> Seq<ObjectModel> {
        models(self.objects@)
    }

    /// Whether an object was added since the last pass began.
    pub closed spec fn grew_flag(&self) -> bool {
        self.grew
    }

    pub closed spec fn wf(&self) -> bool {
        &&& self.keys@.len() == self.objects@.len()
        &&& forall|j: int| 0 <= j < self.keys@.len() ==> self.keys@[j] == key_of(#[trigger] self.objects@[j]@.id)
        &&& increasing(self.keys@)
        &&& increasing(self.wanted@)
        &&& forall|w: u128| #[trigger] self.wanted@.contains(w) <==> refers_to(self.objects(), w as int)
    }

    pub fn new() -> (r: ClosureBuilder)
        ensures
            r.wf(),
            r.objects() == Seq::<ObjectModel>::empty(),
            !r.grew_flag(),
    {
        let r = ClosureBuilder { keys: Vec::new(), objects: Vec::new(), wanted: Vec::new(), grew: false };
        assert(r.objects() =~= Seq::<ObjectModel>::empty());
        r
    }

    /// Begins a new pass.
    pub fn start_pass(&mut self)
        requires
            old(self).wf(),
        ensures
            final(self).wf(),
            final(self).objects() == old(self).objects(),
            !final(self).grew_flag(),
    {
        self.grew = false;
    }

    /// Whether the current pass added an object.
    pub fn grew(&self) -> (r: bool)
        ensures
            r == self.grew_flag(),
    {
        self.grew
    }

    /// Offers one object of the source. It is kept when it is a root or some
    /// kept object refers to it, and no object with its identifier is kept yet.
    pub fn offer(&mut self, obj: OsmObject, root: bool)
        requires
            old(self).wf(),
        ensures
            final(self).wf(),
            ({
                let k = key_of(obj@.id);
                let take = (root || refers_to(old(self).objects(), k)) && !has_key(old(self).objects(), k);
                if take {
                    &&& key_set(final(self).objects()) == key_set(old(self).objects()).insert(k)
                    &&& final(self).objects().len() == old(self).objects().len() + 1
                    &&& forall|j: int|
                        0 <= j < final(self).objects().len() ==> #[trigger] final(self).objects()[j] == obj@
                            || old(self).objects().contains(final(self).objects()[j])
                    &&& final(self).grew_flag()
                } else {
                    &&& final(self).objects() == old(self).objects()
                    &&& final(self).grew_flag() == old(self).grew_flag()
                }
            }),
    {
        let ghost old_objs = self.objects();
        let id = obj.id();
        let k = id.key();
        proof {
            lemma_key_injective(id, id);
        }
        let (present, pos) = search(&self.keys, k);
        if present {
            assert(has_key(old_objs, k as int)) by {
                assert(key_of(old_objs[pos as int].id) == k);
            }
            return;
        }
        assert(!has_key(old_objs, k as int)) by {
            if has_key(old_objs, k as int) {
                let j = choose|j: int| 0 <= j < old_objs.len() && key_of(#[trigger] old_objs[j].id) == k;
                assert(self.keys@[j] == key_of(self.objects@[j]@.id));
            }
        }
        let (is_wanted, _) = search(&self.wanted, k);
        assert(is_wanted == refers_to(old_objs, k as int)) by {
            if self.wanted@.contains(k) {
                let a = choose|a: int| 0 <= a < self.wanted@.len() && self.wanted@[a] == k;
            }
        }
        if !(root || is_wanted) {
            return;
        }
        let dep_keys = obj.dep_keys();
        let ghost om = obj@;
        self.keys.insert(pos, k);
        self.objects.insert(pos, obj);
        self.grew = true;
        assert(self.objects() =~= old_objs.insert(pos as int, om));
        assert forall|i: int, j: int| 0 <= i < j < self.keys@.len() implies self.keys@[i] < self.keys@[j] by {
        }
        assert forall|j: int| 0 <= j < self.keys@.len() implies self.keys@[j] == key_of(#[trigger] self.objects@[j]@.id) by {
            if j < pos {
            } else if j == pos {
            } else {
                assert(self.objects@[j] == old(self).objects@[j - 1]);
            }
        }
        assert(key_set(self.objects()) =~= key_set(old_objs).insert(k as int)) by {
            assert forall|x: int| key_set(self.objects()).contains(x) implies key_set(old_objs).insert(k as int).contains(x) by {
                let j = choose|j: int| 0 <= j < self.objects().len() && key_of(#[trigger] self.objects()[j].id) == x;
                if j < pos {
                    assert(key_of(old_objs[j].id) == x);
                } else if j > pos {
                    assert(key_of(old_objs[j - 1].id) == x);
                }
            }
            assert forall|x: int| key_set(old_objs).insert(k as int).contains(x) implies key_set(self.objects()).contains(x) by {
                if x == k {
                    assert(key_of(self.objects()[pos as int].id) == x);
                } else {
                    let j = choose|j: int| 0 <= j < old_objs.len() && key_of(#[trigger] old_objs[j].id) == x;
                    if j < pos {
                        assert(key_of(self.objects()[j].id) == x);
                    } else {
                        assert(key_of(self.objects()[j + 1].id) == x);
                    }
                }
            }
        }
        assert forall|j: int| 0 <= j < self.objects().len() implies #[trigger] self.objects()[j] == om
            || old_objs.contains(self.objects()[j]) by {
            if j < pos {
                assert(self.objects()[j] == old_objs[j]);
            } else if j > pos {
                assert(self.objects()[j] == old_objs[j - 1]);
            }
        }
        // what is wanted now: what was wanted, and what the new object refers to
        let ghost new_objs = self.objects();
        let mut i: usize = 0;
        while i < dep_keys.len()
            invariant
                i <= dep_keys@.len(),
                new_objs == self.objects(),
                self.keys@.len() == self.objects@.len(),
                forall|j: int| 0 <= j < self.keys@.len() ==> self.keys@[j] == key_of(#[trigger] self.objects@[j]@.id),
                increasing(self.keys@),
                self.grew,
                new_objs == old_objs.insert(pos as int, om),
                0 <= pos <= old_objs.len(),
                dep_keys@.len() == deps(om).len(),
                forall|j: int| 0 <= j < dep_keys@.len() ==> dep_keys@[j] == key_of(#[trigger] deps(om)[j]),
                increasing(self.wanted@),
                forall|w: u128| #[trigger] self.wanted@.contains(w) <==> (refers_to(old_objs, w as int) || dep_keys@.subrange(0, i as int).contains(w)),
            decreases dep_keys@.len() - i,
        {
            let dk = dep_keys[i];
            let (have, at) = search(&self.wanted, dk);
            let ghost before = self.wanted@;
            if !have {
                self.wanted.insert(at, dk);
                assert forall|a: int, b: int| 0 <= a < b < self.wanted@.len() implies self.wanted@[a] < self.wanted@[b] by {
                    if b < at {
                    } else if a < at && b == at {
                    } else if a < at {
                        assert(self.wanted@[b] == before[b - 1]);
                    } else if a == at {
                        assert(self.wanted@[b] == before[b - 1]);
                    } else {
                        assert(self.wanted@[a] == before[a - 1]);
                        assert(self.wanted@[b] == before[b - 1]);
                    }
                }
            }
            proof {
                assert(dep_keys@.subrange(0, i + 1) =~= dep_keys@.subrange(0, i as int).push(dk));
                assert forall|w: u128| #[trigger] self.wanted@.contains(w) <==> (refers_to(old_objs, w as int) || dep_keys@.subrange(0, i + 1).contains(w)) by {
                    if w == dk {
                        assert(self.wanted@[at as int] == dk);
                        assert(dep_keys@.subrange(0, i + 1)[i as int] == dk);
                    } else if !have {
                        if self.wanted@.contains(w) {
                            let a = choose|a: int| 0 <= a < self.wanted@.len() && self.wanted@[a] == w;
                            if a < at {
                                assert(before[a] == w);
                            } else {
                                assert(before[a - 1] == w);
                            }
                        }
                        if before.contains(w) {
                            let a = choose|a: int| 0 <= a < before.len() && before[a] == w;
                            if a < at {
                                assert(self.wanted@[a] == w);
                            } else {
                                assert(self.wanted@[a + 1] == w);
                            }
                        }
                    }
                }
            }
            i += 1;
        }
        proof {
            assert(dep_keys@.subrange(0, i as int) =~= dep_keys@);
            assert forall|w: u128| #[trigger] self.wanted@.contains(w) <==> refers_to(new_objs, w as int) by {
                let x = w as int;
                if refers_to(new_objs, x) {
                    let (j, d) = choose|j: int, d: int|
                        0 <= j < new_objs.len() && 0 <= d < deps(new_objs[j]).len() && key_of(#[trigger] deps(new_objs[j])[d]) == x;
                    if j < pos {
                        assert(new_objs[j] == old_objs[j]);
                        assert(refers_to(old_objs, x));
                    } else if j > pos {
                        assert(new_objs[j] == old_objs[j - 1]);
                        assert(refers_to(old_objs, x));
                    } else {
                        assert(dep_keys@[d] == w);
                    }
                }
                if refers_to(old_objs, x) {
                    let (j, d) = choose|j: int, d: int|
                        0 <= j < old_objs.len() && 0 <= d < deps(old_objs[j]).len() && key_of(#[trigger] deps(old_objs[j])[d]) == x;
                    if j < pos {
                        assert(new_objs[j] == old_objs[j]);
                    } else {
                        assert(new_objs[j + 1] == old_objs[j]);
                    }
                }
                if dep_keys@.contains(w) {
                    let d = choose|d: int| 0 <= d < dep_keys@.len() && dep_keys@[d] == w;
                    assert(new_objs[pos as int] == om);
                    assert(key_of(deps(new_objs[pos as int])[d]) == x);
                }
            }
        }
    }

    /// The objects collected, in order of identifier.
    pub fn into_objects(self) -> (r: Vec<OsmObject>)
        requires
            self.wf(),
        ensures
            models(r@) == self.objects(),
            sorted_by_id(models(r@)),
    {
        assert forall|i: int, j: int| 0 <= i < j < self.objects().len() implies key_of(self.objects()[i].id) < key_of(self.objects()[j].id) by {
            assert(self.keys@[i] == key_of(self.objects@[i]@.id));
            assert(self.keys@[j] == key_of(self.objects@[j]@.id));
        }
        self.objects
    }
}

/// A closure has at most as many objects as its source.
proof fn lemma_len_bound(objs: Seq<ObjectModel>, src: Seq<ObjectModel>)
    requires
        sorted_by_id(objs),
        forall|j: int| 0 <= j < objs.len() ==> src.contains(#[trigger] objs[j]),
    ensures
        objs.len() <= src.len(),
{
    broadcast use vstd::seq_lib::seq_to_set_is_finite;

    let ks = objs.map_values(|o: ObjectModel| key_of(o.id));
    let sk = src.map_values(|o: ObjectModel| key_of(o.id));
    assert(ks.no_duplicates()) by {
        assert forall|a: int, b: int| 0 <= a < ks.len() && 0 <= b < ks.len() && a != b implies ks[a] != ks[b] by {
            if a < b {
                assert(key_of(objs[a].id) < key_of(objs[b].id));
            } else {
                assert(key_of(objs[b].id) < key_of(objs[a].id));
            }
        }
    }
    ks.unique_seq_to_set();
    sk.lemma_cardinality_of_set();
    assert(ks.to_set().subset_of(sk.to_set())) by {
        assert forall|x: int| ks.to_set().contains(x) implies sk.to_set().contains(x) by {
            let j = choose|j: int| 0 <= j < ks.len() && ks[j] == x;
            assert(src.contains(objs[j]));
            let i = choose|i: int| 0 <= i < src.len() && src[i] == objs[j];
            assert(sk[i] == x);
        }
    }
    vstd::set_lib::lemma_len_subset(ks.to_set(), sk.to_set());
}

/// The objects selected from a source together with everything they depend
/// on, in order of identifier, one per identifier.
pub struct ResultSet {
    objects: Vec<OsmObject>,
}

impl View for ResultSet {
    type V = Seq<ObjectModel>;

    closed spec fn view(&self) -> Seq<ObjectModel> {
        models(self.objects@)
    }
}

impl ResultSet {
    /// The objects, in order of identifier.
    pub fn objects(&self) -> (r: &Vec<OsmObject>)
        ensures
            models(r@) == self@,
    {
        &self.objects
    }

    pub fn len(&self) -> (r: usize)
        ensures
            r == self@.len(),
    {
        self.objects.len()
    }
}

impl ClosureBuilder {
    /// The objects collected, as a result set.
    pub fn into_result(self) -> (r: ResultSet)
        requires
            self.wf(),
        ensures
            r@ == self.objects(),
            sorted_by_id(r@),
    {
        ResultSet { objects: self.into_objects() }
    }
}

/// Builds the dependency closure of the objects of `source` that `filter`
/// selects under `sel`, by passes over `source` until one adds nothing.
pub fn load_closure(source: &Vec<OsmObject>, filter: &RelationFilter, sel: Selection) -> (r: ResultSet)
    requires
        filter.wf(),
    ensures
        is_closure(models(source@), filter@, sel, r@),
{
    let ghost src = models(source@);
    let ghost f = filter@;
    let mut b = ClosureBuilder::new();
    let mut first = true;
    let mut go = true;
    while go
        invariant
            b.wf(),
            filter.wf(),
            f == filter@,
            src == models(source@),
            first ==> go && b.objects().len() == 0,
            forall|j: int| 0 <= j < b.objects().len() ==> src.contains(#[trigger] b.objects()[j]),
            forall|s: Set<int>| #[trigger] closed_under(src, f, sel, s) ==> key_set(b.objects()).subset_of(s),
            !first ==> forall|p: int| 0 <= p < src.len() && selects(f, sel, #[trigger] src[p]) ==> has_key(b.objects(), key_of(src[p].id)),
            !go ==> forall|p: int| 0 <= p < src.len() && refers_to(b.objects(), key_of(#[trigger] src[p].id)) ==> has_key(b.objects(), key_of(src[p].id)),
            b.objects().len() <= src.len(),
        decreases src.len() - b.objects().len() + (if first { 1int } else { 0int }) + (if go { 1int } else { 0int }),
    {
        b.start_pass();
        let ghost start = b.objects();
        let mut i: usize = 0;
        while i < source.len()
            invariant
                b.wf(),
                filter.wf(),
                f == filter@,
                src == models(source@),
                i <= source@.len(),
                start.len() <= b.objects().len(),
                !b.grew_flag() ==> b.objects() == start,
                b.grew_flag() ==> start.len() < b.objects().len(),
                forall|j: int| 0 <= j < b.objects().len() ==> src.contains(#[trigger] b.objects()[j]),
                forall|s: Set<int>| #[trigger] closed_under(src, f, sel, s) ==> key_set(b.objects()).subset_of(s),
                first ==> forall|p: int| 0 <= p < i && selects(f, sel, #[trigger] src[p]) ==> has_key(b.objects(), key_of(src[p].id)),
                !first ==> forall|p: int| 0 <= p < src.len() && selects(f, sel, #[trigger] src[p]) ==> has_key(b.objects(), key_of(src[p].id)),
                !b.grew_flag() ==> forall|p: int| 0 <= p < i && refers_to(b.objects(), key_of(#[trigger] src[p].id)) ==> has_key(b.objects(), key_of(src[p].id)),
            decreases source@.len() - i,
        {
            let root = first && filter.selects(sel, &source[i]);
            let ghost before = b.objects();
            let ghost o = src[i as int];
            assert(source@[i as int]@ == o);
            b.offer(source[i].duplicate(), root);
            proof {
                let k = key_of(o.id);
                let took = (root || refers_to(before, k)) && !has_key(before, k);
                if took {
                    assert forall|j: int| 0 <= j < b.objects().len() implies src.contains(#[trigger] b.objects()[j]) by {
                        if b.objects()[j] == o {
                            assert(src[i as int] == o);
                        } else {
                            let q = choose|q: int| 0 <= q < before.len() && before[q] == b.objects()[j];
                            assert(src.contains(before[q]));
                        }
                    }
                    assert forall|s: Set<int>| #[trigger] closed_under(src, f, sel, s) implies key_set(b.objects()).subset_of(s) by {
                        assert(key_set(before).subset_of(s));
                        if root {
                            assert(selects(f, sel, src[i as int]));
                        } else {
                            let (q, d) = choose|q: int, d: int|
                                0 <= q < before.len() && 0 <= d < deps(before[q]).len() && key_of(#[trigger] deps(before[q])[d]) == k;
                            assert(src.contains(before[q]));
                            let w = choose|w: int| 0 <= w < src.len() && src[w] == before[q];
                            assert(key_set(before).contains(key_of(before[q].id)));
                            assert(has_key(src, key_of(deps(src[w])[d])));
                        }
                    }
                    assert forall|p: int| 0 <= p < src.len() && has_key(before, key_of(#[trigger] src[p].id)) implies has_key(b.objects(), key_of(src[p].id)) by {
                        assert(key_set(before).contains(key_of(src[p].id)));
                        assert(key_set(b.objects()).contains(key_of(src[p].id)));
                    }
                    if first {
                        assert(key_set(b.objects()).contains(k));
                    }
                }
            }
            i += 1;
        }
        proof {
            if b.grew_flag() {
                lemma_len_bound(b.objects(), src);
            }
        }
        go = b.grew();
        first = false;
    }
    let objects = b.into_objects();
    let r = ResultSet { objects };
    proof {
        let res = r@;
        assert forall|q: int, d: int|
            0 <= q < res.len() && 0 <= d < deps(res[q]).len() && has_key(src, key_of(#[trigger] deps(res[q])[d]))
                implies has_key(res, key_of(deps(res[q])[d])) by {
            let k = key_of(deps(res[q])[d]);
            let p = choose|p: int| 0 <= p < src.len() && key_of(#[trigger] src[p].id) == k;
            assert(refers_to(res, key_of(src[p].id)));
        }
    }
    r
}

/// No two different objects of `src` share an identifier.
pub open spec fn unique_ids(src: Seq<ObjectModel>) -> bool {
    forall|a: int, b: int|
        0 <= a < src.len() && 0 <= b < src.len() && key_of(#[trigger] src[a].id) == key_of(#[trigger] src[b].id)
            ==> src[a] == src[b]
}

/// Every member of a selected relation that exists in the source is in the
/// closure.
pub proof fn lemma_root_members_present(
    src: Seq<ObjectModel>,
    f: FilterModel,
    sel: Selection,
    r: Seq<ObjectModel>,
    p: int,
    d: int,
)
    requires
        unique_ids(src),
        is_closure(src, f, sel, r),
        0 <= p < src.len(),
        selects(f, sel, src[p]),
        0 <= d < deps(src[p]).len(),
        has_key(src, key_of(deps(src[p])[d])),
    ensures
        has_key(r, key_of(deps(src[p])[d])),
{
    assert(has_key(r, key_of(src[p].id)));
    let q = choose|q: int| 0 <= q < r.len() && key_of(#[trigger] r[q].id) == key_of(src[p].id);
    assert(src.contains(r[q]));
    let w = choose|w: int| 0 <= w < src.len() && src[w] == r[q];
    assert(r[q] == src[p]);
    assert(has_key(src, key_of(deps(r[q])[d])));
}

proof fn lemma_closure_keys_closed(src: Seq<ObjectModel>, f: FilterModel, sel: Selection, r: Seq<ObjectModel>)
    requires
        unique_ids(src),
        is_closure(src, f, sel, r),
    ensures
        closed_under(src, f, sel, key_set(r)),
{
    assert forall|i: int| 0 <= i < src.len() && selects(f, sel, #[trigger] src[i]) implies key_set(r).contains(key_of(src[i].id)) by {
    }
    assert forall|i: int, d: int|
        0 <= i < src.len() && key_set(r).contains(key_of(src[i].id)) && 0 <= d < deps(src[i]).len() && has_key(
            src,
            key_of(#[trigger] deps(src[i])[d]),
        ) implies key_set(r).contains(key_of(deps(src[i])[d])) by {
        let q = choose|q: int| 0 <= q < r.len() && key_of(#[trigger] r[q].id) == key_of(src[i].id);
        assert(src.contains(r[q]));
        let w = choose|w: int| 0 <= w < src.len() && src[w] == r[q];
        assert(r[q] == src[i]);
        assert(has_key(src, key_of(deps(r[q])[d])));
    }
}

proof fn lemma_same_keys_same_index(r1: Seq<ObjectModel>, r2: Seq<ObjectModel>, i: int)
    requires
        sorted_by_id(r1),
        sorted_by_id(r2),
        key_set(r1) == key_set(r2),
        0 <= i < r1.len(),
        i < r2.len(),
    ensures
        key_of(r1[i].id) == key_of(r2[i].id),
    decreases i,
{
    assert forall|j: int| 0 <= j < i implies key_of(r1[j].id) == key_of(r2[j].id) by {
        lemma_same_keys_same_index(r1, r2, j);
    }
    assert(key_set(r1).contains(key_of(r1[i].id)));
    assert(key_set(r2).contains(key_of(r2[i].id)));
    let m = choose|m: int| 0 <= m < r2.len() && key_of(#[trigger] r2[m].id) == key_of(r1[i].id);
    let n = choose|n: int| 0 <= n < r1.len() && key_of(#[trigger] r1[n].id) == key_of(r2[i].id);
    if m < i {
        assert(key_of(r1[m].id) == key_of(r2[m].id));
    }
    if n < i {
        assert(key_of(r1[n].id) == key_of(r2[n].id));
    }
    if m > i {
        assert(key_of(r2[i].id) < key_of(r2[m].id));
        assert(key_of(r1[i].id) <= key_of(r1[n].id));
    }
}

proof fn lemma_same_keys_same_len(r1: Seq<ObjectModel>, r2: Seq<ObjectModel>)
    requires
        sorted_by_id(r1),
        sorted_by_id(r2),
        key_set(r1) == key_set(r2),
        r1.len() <= r2.len(),
    ensures
        r1.len() == r2.len(),
{
    let n = r1.len() as int;
    if n < r2.len() {
        assert(key_set(r2).contains(key_of(r2[n].id)));
        let m = choose|m: int| 0 <= m < r1.len() && key_of(#[trigger] r1[m].id) == key_of(r2[n].id);
        lemma_same_keys_same_index(r1, r2, m);
        assert(key_of(r2[m].id) < key_of(r2[n].id));
    }
}

/// Building the closure twice from the same source, with the same filter and
/// selection, gives the same objects in the same order.
pub proof fn lemma_closure_deterministic(
    src: Seq<ObjectModel>,
    f: FilterModel,
    sel: Selection,
    r1: Seq<ObjectModel>,
    r2: Seq<ObjectModel>,
)
    requires
        unique_ids(src),
        is_closure(src, f, sel, r1),
        is_closure(src, f, sel, r2),
    ensures
        r1 == r2,
{
    lemma_closure_keys_closed(src, f, sel, r1);
    lemma_closure_keys_closed(src, f, sel, r2);
    assert(key_set(r1) =~= key_set(r2));
    if r1.len() <= r2.len() {
        lemma_same_keys_same_len(r1, r2);
    } else {
        lemma_same_keys_same_len(r2, r1);
    }
    assert forall|i: int| 0 <= i < r1.len() implies r1[i] == r2[i] by {
        lemma_same_keys_same_index(r1, r2, i);
        assert(src.contains(r1[i]));
        assert(src.contains(r2[i]));
        let a = choose|a: int| 0 <= a < src.len() && src[a] == r1[i];
        let b = choose|b: int| 0 <= b < src.len() && src[b] == r2[i];
    }
    assert(r1 =~= r2);
}

} // verus!
