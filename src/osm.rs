use vstd::prelude::*;

verus! {

/// Width of the integer range given to each kind of identifier in a key.
pub const KIND_SPAN: u128 = 0x1_0000_0000_0000_0000;

/// Shift that maps a signed 64-bit identifier onto `0..KIND_SPAN`.
pub const ID_SHIFT: i128 = 0x8000_0000_0000_0000;

/// Identifier of an OSM object: its kind and a 64-bit number unique within that kind.
#[derive(Clone, Copy, Debug, PartialEq, Eq, Hash, Structural)]
pub enum ObjectId {
    Node(i64),
    Way(i64),
    Relation(i64),
}

/// The rank of a kind in the total order of identifiers (nodes, then ways, then relations).
pub open spec fn kind_rank(id: ObjectId) -> int {
    match id {
        ObjectId::Node(_) => 0,
        ObjectId::Way(_) => 1,
        ObjectId::Relation(_) => 2,
    }
}

pub open spec fn inner_id(id: ObjectId) -> i64 {
    match id {
        ObjectId::Node(n) => n,
        ObjectId::Way(n) => n,
        ObjectId::Relation(n) => n,
    }
}

/// The integer that orders identifiers: by kind first, then by number.
pub open spec fn key_of(id: ObjectId) -> int {
    kind_rank(id) * KIND_SPAN + inner_id(id) + ID_SHIFT
}

/// Distinct identifiers have distinct keys.
pub proof fn lemma_key_injective(a: ObjectId, b: ObjectId)
    ensures
        key_of(a) == key_of(b) <==> a == b,
        0 <= key_of(a) < 3 * KIND_SPAN,
{
}

impl ObjectId {
    /// The ordering key of this identifier.
    pub fn key(&self) -> (r: u128)
        ensures
            r == key_of(*self),
    {
        let (rank, n): (u128, i64) = match *self {
            ObjectId::Node(n) => (0, n),
            ObjectId::Way(n) => (1, n),
            ObjectId::Relation(n) => (2, n),
        };
        rank * KIND_SPAN + (n as i128 + ID_SHIFT) as u128
    }
}

/// A tag list as plain strings.
pub type TagsModel = Seq<(Seq<char>, Seq<char>)>;

/// What the logic reads of an object: its identifier, its tags, and the
/// objects it refers to, each with a role (ways refer to their nodes with an
/// empty role).
pub struct ObjectModel {
    pub id: ObjectId,
    pub tags: TagsModel,
    pub refs: Seq<(ObjectId, Seq<char>)>,
}

/// An OSM object as decoded from an extract.
#[derive(Debug)]
pub enum OsmObject {
    Node { id: i64, tags: Vec<(String, String)> },
    Way { id: i64, tags: Vec<(String, String)>, nodes: Vec<i64> },
    Relation { id: i64, tags: Vec<(String, String)>, members: Vec<(ObjectId, String)> },
}

pub open spec fn tags_model(tags: Seq<(String, String)>) -> TagsModel {
    tags.map_values(|t: (String, String)| (t.0@, t.1@))
}

pub open spec fn members_model(members: Seq<(ObjectId, String)>) -> Seq<(ObjectId, Seq<char>)> {
    members.map_values(|m: (ObjectId, String)| (m.0, m.1@))
}

pub open spec fn nodes_model(nodes: Seq<i64>) -> Seq<(ObjectId, Seq<char>)> {
    nodes.map_values(|n: i64| (ObjectId::Node(n), Seq::<char>::empty()))
}

/// The value of the first tag with key `k`, if any.
pub open spec fn tag_value(tags: TagsModel, k: Seq<char>) -> Option<Seq<char>>
    decreases tags.len(),
{
    if tags.len() == 0 {
        None
    } else if tags[0].0 == k {
        Some(tags[0].1)
    } else {
        tag_value(tags.drop_first(), k)
    }
}

/// The identifiers an object refers to, in order.
pub open spec fn deps(o: ObjectModel) -> Seq<ObjectId> {
    o.refs.map_values(|r: (ObjectId, Seq<char>)| r.0)
}

impl View for OsmObject {
    type V = ObjectModel;

    open spec fn view(&self) -> ObjectModel {
        match self {
            OsmObject::Node { id, tags } => ObjectModel {
                id: ObjectId::Node(*id),
                tags: tags_model(tags@),
                refs: Seq::empty(),
            },
            OsmObject::Way { id, tags, nodes } => ObjectModel {
                id: ObjectId::Way(*id),
                tags: tags_model(tags@),
                refs: nodes_model(nodes@),
            },
            OsmObject::Relation { id, tags, members } => ObjectModel {
                id: ObjectId::Relation(*id),
                tags: tags_model(tags@),
                refs: members_model(members@),
            },
        }
    }
}

fn copy_tags(tags: &Vec<(String, String)>) -> (r: Vec<(String, String)>)
    ensures
        tags_model(r@) == tags_model(tags@),
{
    let mut r: Vec<(String, String)> = Vec::new();
    let mut i: usize = 0;
    while i < tags.len()
        invariant
            i <= tags.len(),
            r@ == tags@.subrange(0, i as int),
        decreases tags.len() - i,
    {
        let k = tags[i].0.clone();
        let v = tags[i].1.clone();
        r.push((k, v));
        i += 1;
        assert(r@ =~= tags@.subrange(0, i as int));
    }
    assert(tags@.subrange(0, i as int) =~= tags@);
    r
}

fn copy_members(members: &Vec<(ObjectId, String)>) -> (r: Vec<(ObjectId, String)>)
    ensures
        members_model(r@) == members_model(members@),
{
    let mut r: Vec<(ObjectId, String)> = Vec::new();
    let mut i: usize = 0;
    while i < members.len()
        invariant
            i <= members.len(),
            r@ == members@.subrange(0, i as int),
        decreases members.len() - i,
    {
        let id = members[i].0;
        let role = members[i].1.clone();
        r.push((id, role));
        i += 1;
        assert(r@ =~= members@.subrange(0, i as int));
    }
    assert(members@.subrange(0, i as int) =~= members@);
    r
}

impl OsmObject {
    /// The object's identifier.
    pub fn id(&self) -> (r: ObjectId)
        ensures
            r == self@.id,
    {
        match self {
            OsmObject::Node { id, .. } => ObjectId::Node(*id),
            OsmObject::Way { id, .. } => ObjectId::Way(*id),
            OsmObject::Relation { id, .. } => ObjectId::Relation(*id),
        }
    }

    pub fn is_relation(&self) -> (r: bool)
        ensures
            r == (self@.id is Relation),
    {
        matches!(self, OsmObject::Relation { .. })
    }

    /// The object's tags.
    pub fn tags(&self) -> (r: &Vec<(String, String)>)
        ensures
            tags_model(r@) == self@.tags,
    {
        match self {
            OsmObject::Node { tags, .. } => tags,
            OsmObject::Way { tags, .. } => tags,
            OsmObject::Relation { tags, .. } => tags,
        }
    }

    /// The value of the first tag with key `k`.
    pub fn tag(&self, k: &String) -> (r: Option<&String>)
        ensures
            match r {
                Some(v) => tag_value(self@.tags, k@) == Some(v@),
                None => tag_value(self@.tags, k@) is None,
            },
    {
        let tags = self.tags();
        assert(self@.tags.subrange(0, tags@.len() as int) =~= self@.tags);
        let mut i: usize = 0;
        while i < tags.len()
            invariant
                i <= tags.len(),
                tags_model(tags@) == self@.tags,
                tag_value(self@.tags, k@) == tag_value(self@.tags.subrange(i as int, tags@.len() as int), k@),
            decreases tags.len() - i,
        {
            let ghost rest = self@.tags.subrange(i as int, tags@.len() as int);
            if tags[i].0 == *k {
                return Some(&tags[i].1);
            }
            assert(rest.drop_first() =~= self@.tags.subrange(i + 1, tags@.len() as int));
            i += 1;
        }
        None
    }

    /// The identifiers this object refers to: a relation's members, a way's nodes.
    pub fn dep_keys(&self) -> (r: Vec<u128>)
        ensures
            r@.len() == deps(self@).len(),
            forall|j: int| 0 <= j < r@.len() ==> r@[j] == key_of(#[trigger] deps(self@)[j]),
    {
        let mut r: Vec<u128> = Vec::new();
        match self {
            OsmObject::Node { .. } => {},
            OsmObject::Way { nodes, .. } => {
                let mut i: usize = 0;
                while i < nodes.len()
                    invariant
                        i <= nodes.len(),
                        self@.refs == nodes_model(nodes@),
                        deps(self@).len() == nodes@.len(),
                        r@.len() == i,
                        forall|j: int| 0 <= j < i ==> r@[j] == key_of(#[trigger] deps(self@)[j]),
                    decreases nodes.len() - i,
                {
                    assert(self@.refs[i as int] == (ObjectId::Node(nodes@[i as int]), Seq::<char>::empty()));
                    assert(deps(self@)[i as int] == ObjectId::Node(nodes@[i as int]));
                    r.push(ObjectId::Node(nodes[i]).key());
                    i += 1;
                }
            },
            OsmObject::Relation { members, .. } => {
                let mut i: usize = 0;
                while i < members.len()
                    invariant
                        i <= members.len(),
                        self@.refs == members_model(members@),
                        deps(self@).len() == members@.len(),
                        r@.len() == i,
                        forall|j: int| 0 <= j < i ==> r@[j] == key_of(#[trigger] deps(self@)[j]),
                    decreases members.len() - i,
                {
                    assert(self@.refs[i as int] == (members@[i as int].0, members@[i as int].1@));
                    assert(deps(self@)[i as int] == members@[i as int].0);
                    r.push(members[i].0.key());
                    i += 1;
                }
            },
        }
        r
    }

    /// A copy of this object.
    pub fn duplicate(&self) -> (r: OsmObject)
        ensures
            r@ == self@,
    {
        match self {
            OsmObject::Node { id, tags } => OsmObject::Node { id: *id, tags: copy_tags(tags) },
            OsmObject::Way { id, tags, nodes } => {
                let n = nodes.clone();
                assert(n@ =~= nodes@);
                OsmObject::Way { id: *id, tags: copy_tags(tags), nodes: n }
            },
            OsmObject::Relation { id, tags, members } => OsmObject::Relation {
                id: *id,
                tags: copy_tags(tags),
                members: copy_members(members),
            },
        }
    }
}

} // verus!
