use vstd::prelude::*;
use crate::osm::{tag_value, ObjectModel, OsmObject, TagsModel};

verus! {

pub open spec fn name_key() -> Seq<char> {
    "name"@
}

pub open spec fn admin_level_key() -> Seq<char> {
    "admin_level"@
}

pub open spec fn boundary_key() -> Seq<char> {
    "boundary"@
}

/// The allowlists a filter was built with.
pub struct FilterModel {
    pub admin_levels: Seq<Seq<char>>,
    pub boundary_types: Seq<Seq<char>>,
}

pub open spec fn strings_model(v: Seq<String>) -> Seq<Seq<char>> {
    v.map_values(|s: String| s@)
}

/// Whether the tag `k` is present and its value is one of `allowed`.
pub open spec fn tag_in(tags: TagsModel, k: Seq<char>, allowed: Seq<Seq<char>>) -> bool {
    match tag_value(tags, k) {
        Some(v) => allowed.contains(v),
        None => false,
    }
}

/// A relation with a non-empty name and an allowed administrative level.
pub open spec fn is_candidate(f: FilterModel, o: ObjectModel) -> bool {
    &&& o.id is Relation
    &&& match tag_value(o.tags, name_key()) {
        Some(v) => v.len() > 0,
        None => false,
    }
    &&& tag_in(o.tags, admin_level_key(), f.admin_levels)
}

/// A candidate relation whose boundary type is one of the allowed ones.
pub open spec fn is_target(f: FilterModel, o: ObjectModel) -> bool {
    &&& is_candidate(f, o)
    &&& tag_in(o.tags, boundary_key(), f.boundary_types)
}

/// Which of the two predicates picks the root relations.
#[derive(Clone, Copy, Debug, PartialEq, Eq, Structural)]
pub enum Selection {
    /// Every candidate relation.
    Candidates,
    /// Only the boundary relations among the candidates.
    Targets,
}

pub open spec fn selects(f: FilterModel, sel: Selection, o: ObjectModel) -> bool {
    match sel {
        Selection::Candidates => is_candidate(f, o),
        Selection::Targets => is_target(f, o),
    }
}

/// The narrow predicate implies the broad one.
pub proof fn lemma_target_implies_candidate(f: FilterModel, o: ObjectModel)
    ensures
        is_target(f, o) ==> is_candidate(f, o),
{
}

/// Classifies relations by their tags, against allowlists of administrative
/// levels and boundary types.
pub struct RelationFilter {
    admin_levels: Vec<String>,
    boundary_types: Vec<String>,
    name_key: String,
    admin_level_key: String,
    boundary_key: String,
}

impl View for RelationFilter {
    type V = FilterModel;

    closed spec fn view(&self) -> FilterModel {
        FilterModel {
            admin_levels: strings_model(self.admin_levels@),
            boundary_types: strings_model(self.boundary_types@),
        }
    }
}

fn contains_string(list: &Vec<String>, s: &String) -> (r: bool)
    ensures
        r == strings_model(list@).contains(s@),
{
    let mut i: usize = 0;
    while i < list.len()
        invariant
            i <= list.len(),
            forall|j: int| 0 <= j < i ==> list@[j]@ != s@,
        decreases list.len() - i,
    {
        if list[i] == *s {
            assert(strings_model(list@)[i as int] == s@);
            return true;
        }
        i += 1;
    }
    proof {
        if strings_model(list@).contains(s@) {
            let j = choose|j: int| 0 <= j < list@.len() && strings_model(list@)[j] == s@;
            assert(list@[j]@ == s@);
        }
    }
    false
}

impl RelationFilter {
    pub closed spec fn wf(&self) -> bool {
        &&& self.name_key@ == name_key()
        &&& self.admin_level_key@ == admin_level_key()
        &&& self.boundary_key@ == boundary_key()
    }

    /// A filter with the given allowlists.
    pub fn new(admin_levels: Vec<String>, boundary_types: Vec<String>) -> (r: RelationFilter)
        ensures
            r.wf(),
            r@.admin_levels == strings_model(admin_levels@),
            r@.boundary_types == strings_model(boundary_types@),
    {
        RelationFilter {
            admin_levels,
            boundary_types,
            name_key: "name".to_owned(),
            admin_level_key: "admin_level".to_owned(),
            boundary_key: "boundary".to_owned(),
        }
    }

    /// The usual filter: levels 2, 4, 6, 7 and 8; administrative, state and
    /// country borders.
    pub fn standard() -> (r: RelationFilter)
        ensures
            r.wf(),
            r@.admin_levels == seq!["2"@, "4"@, "6"@, "7"@, "8"@],
            r@.boundary_types == seq![
                "administrative"@,
                "state_border"@,
                "country_border"@,
                "state border"@,
            ],
    {
        let levels = vec![
            "2".to_owned(),
            "4".to_owned(),
            "6".to_owned(),
            "7".to_owned(),
            "8".to_owned(),
        ];
        let types = vec![
            "administrative".to_owned(),
            "state_border".to_owned(),
            "country_border".to_owned(),
            "state border".to_owned(),
        ];
        let r = RelationFilter::new(levels, types);
        assert(r@.admin_levels =~= seq!["2"@, "4"@, "6"@, "7"@, "8"@]);
        assert(r@.boundary_types =~= seq![
            "administrative"@,
            "state_border"@,
            "country_border"@,
            "state border"@,
        ]);
        r
    }

    fn tag_allowed(&self, obj: &OsmObject, k: &String, allowed: &Vec<String>) -> (r: bool)
        ensures
            r == tag_in(obj@.tags, k@, strings_model(allowed@)),
    {
        match obj.tag(k) {
            Some(v) => contains_string(allowed, v),
            None => false,
        }
    }

    /// Whether `obj` is a named relation with an allowed administrative level.
    pub fn is_candidate_relation(&self, obj: &OsmObject) -> (r: bool)
        requires
            self.wf(),
        ensures
            r == is_candidate(self@, obj@),
    {
        if !obj.is_relation() {
            return false;
        }
        let named = match obj.tag(&self.name_key) {
            Some(v) => !v.as_str().is_empty(),
            None => false,
        };
        named && self.tag_allowed(obj, &self.admin_level_key, &self.admin_levels)
    }

    /// Whether `obj` is a candidate relation with an allowed boundary type.
    pub fn is_target_relation(&self, obj: &OsmObject) -> (r: bool)
        requires
            self.wf(),
        ensures
            r == is_target(self@, obj@),
    {
        self.is_candidate_relation(obj) && self.tag_allowed(obj, &self.boundary_key, &self.boundary_types)
    }

    /// Whether `obj` is picked as a root under `sel`.
    pub fn selects(&self, sel: Selection, obj: &OsmObject) -> (r: bool)
        requires
            self.wf(),
        ensures
            r == selects(self@, sel, obj@),
    {
        match sel {
            Selection::Candidates => self.is_candidate_relation(obj),
            Selection::Targets => self.is_target_relation(obj),
        }
    }

    /// The boundary type of `obj`, if it has one.
    pub fn boundary_of<'a>(&self, obj: &'a OsmObject) -> (r: Option<&'a String>)
        requires
            self.wf(),
        ensures
            match r {
                Some(v) => tag_value(obj@.tags, boundary_key()) == Some(v@),
                None => tag_value(obj@.tags, boundary_key()) is None,
            },
    {
        obj.tag(&self.boundary_key)
    }
}

} // verus!
