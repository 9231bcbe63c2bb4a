use admin_boundaries::closure::{load_closure, ClosureBuilder};
use admin_boundaries::filter::{RelationFilter, Selection};
use admin_boundaries::osm::{ObjectId, OsmObject};
use admin_boundaries::records::{records_of, target_records};
use admin_boundaries::stats::{stats_of, summarize};

fn tags(pairs: &[(&str, &str)]) -> Vec<(String, String)> {
    pairs.iter().map(|(k, v)| (k.to_string(), v.to_string())).collect()
}

fn relation(id: i64, t: &[(&str, &str)], members: Vec<ObjectId>) -> OsmObject {
    OsmObject::Relation {
        id,
        tags: tags(t),
        members: members.into_iter().map(|m| (m, "outer".to_string())).collect(),
    }
}

fn way(id: i64, nodes: Vec<i64>) -> OsmObject {
    OsmObject::Way { id, tags: Vec::new(), nodes }
}

fn node(id: i64) -> OsmObject {
    OsmObject::Node { id, tags: Vec::new() }
}

fn ids(objs: &[OsmObject]) -> Vec<ObjectId> {
    objs.iter().map(|o| o.id()).collect()
}

const ADMIN: &[(&str, &str)] = &[("name", "Test"), ("admin_level", "4"), ("boundary", "administrative")];

#[test]
fn one_boundary_relation_gives_one_record_and_one_stats_line() {
    let source = vec![relation(1, ADMIN, vec![]), way(7, vec![])];
    let filter = RelationFilter::standard();
    let records = records_of(&source, &filter);
    assert_eq!(ids(&records), vec![ObjectId::Relation(1)]);
    let stats = stats_of(&source, &filter);
    assert_eq!(stats, vec![(Some("administrative".to_string()), 1)]);
}

#[test]
fn disallowed_level_is_excluded_everywhere() {
    let r = relation(1, &[("name", "X"), ("admin_level", "10")], vec![]);
    let filter = RelationFilter::standard();
    assert!(!filter.is_candidate_relation(&r));
    assert!(!filter.is_target_relation(&r));
    let source = vec![r];
    assert!(records_of(&source, &filter).is_empty());
    assert!(stats_of(&source, &filter).is_empty());
}

#[test]
fn dangling_member_is_omitted() {
    let source = vec![relation(1, ADMIN, vec![ObjectId::Way(99)])];
    let filter = RelationFilter::standard();
    let closure = load_closure(&source, &filter, Selection::Candidates);
    assert_eq!(ids(closure.objects()), vec![ObjectId::Relation(1)]);
    assert_eq!(target_records(&closure, &filter).len(), 1);
}

#[test]
fn target_implies_candidate_on_examples() {
    let filter = RelationFilter::standard();
    let examples = vec![
        relation(1, ADMIN, vec![]),
        relation(2, &[("name", "A"), ("admin_level", "8"), ("boundary", "state border")], vec![]),
        relation(3, &[("name", "B"), ("admin_level", "2"), ("boundary", "maritime")], vec![]),
        relation(4, &[("admin_level", "2"), ("boundary", "administrative")], vec![]),
        way(5, vec![]),
    ];
    let expected = [(true, true), (true, true), (true, false), (false, false), (false, false)];
    for (o, (cand, targ)) in examples.iter().zip(expected.iter()) {
        assert_eq!(filter.is_candidate_relation(o), *cand);
        assert_eq!(filter.is_target_relation(o), *targ);
        assert!(!filter.is_target_relation(o) || filter.is_candidate_relation(o));
    }
}

#[test]
fn empty_name_is_not_a_candidate() {
    let filter = RelationFilter::standard();
    let r = relation(1, &[("name", ""), ("admin_level", "4"), ("boundary", "administrative")], vec![]);
    assert!(!filter.is_candidate_relation(&r));
}

#[test]
fn custom_allowlists_are_used() {
    let filter = RelationFilter::new(vec!["10".to_string()], vec!["political".to_string()]);
    let r = relation(1, &[("name", "X"), ("admin_level", "10"), ("boundary", "political")], vec![]);
    assert!(filter.is_target_relation(&r));
    assert!(!RelationFilter::standard().is_candidate_relation(&r));
}

#[test]
fn members_and_nested_dependencies_are_pulled_in() {
    // relation 1 -> way 10 -> nodes 100, 101; relation 1 -> relation 2 -> node 102
    let source = vec![
        node(100),
        node(101),
        node(102),
        node(103),
        way(10, vec![100, 101]),
        way(11, vec![103]),
        relation(2, &[("type", "subarea")], vec![ObjectId::Node(102)]),
        relation(1, ADMIN, vec![ObjectId::Way(10), ObjectId::Relation(2)]),
    ];
    let filter = RelationFilter::standard();
    let closure = load_closure(&source, &filter, Selection::Targets);
    assert_eq!(
        ids(closure.objects()),
        vec![
            ObjectId::Node(100),
            ObjectId::Node(101),
            ObjectId::Node(102),
            ObjectId::Way(10),
            ObjectId::Relation(1),
            ObjectId::Relation(2),
        ]
    );
}

#[test]
fn loading_twice_gives_the_same_result() {
    let source = vec![
        relation(3, ADMIN, vec![ObjectId::Way(5), ObjectId::Node(9)]),
        way(5, vec![9, 8]),
        node(8),
        node(9),
        relation(4, &[("name", "Y"), ("admin_level", "6")], vec![ObjectId::Node(8)]),
    ];
    let filter = RelationFilter::standard();
    let a = load_closure(&source, &filter, Selection::Candidates);
    let b = load_closure(&source, &filter, Selection::Candidates);
    assert_eq!(format!("{:?}", a.objects()), format!("{:?}", b.objects()));
    assert_eq!(a.len(), 5);
}

#[test]
fn duplicate_references_are_kept_once() {
    let source = vec![
        relation(1, ADMIN, vec![ObjectId::Node(5), ObjectId::Node(5)]),
        relation(2, ADMIN, vec![ObjectId::Node(5)]),
        node(5),
    ];
    let filter = RelationFilter::standard();
    let closure = load_closure(&source, &filter, Selection::Targets);
    assert_eq!(ids(closure.objects()), vec![ObjectId::Node(5), ObjectId::Relation(1), ObjectId::Relation(2)]);
}

#[test]
fn identifiers_order_by_kind_then_number() {
    assert!(ObjectId::Node(i64::MAX).key() < ObjectId::Way(i64::MIN).key());
    assert!(ObjectId::Way(i64::MAX).key() < ObjectId::Relation(i64::MIN).key());
    assert!(ObjectId::Relation(-1).key() < ObjectId::Relation(0).key());
    assert_eq!(ObjectId::Node(0).key(), 1u128 << 63);
}

#[test]
fn stats_sorted_by_count_with_absent_bucket() {
    let source = vec![
        relation(1, &[("name", "A"), ("admin_level", "2"), ("boundary", "maritime")], vec![]),
        relation(2, &[("name", "B"), ("admin_level", "4"), ("boundary", "administrative")], vec![]),
        relation(3, &[("name", "C"), ("admin_level", "4"), ("boundary", "administrative")], vec![]),
        relation(4, &[("name", "D"), ("admin_level", "6")], vec![]),
        relation(5, &[("name", "E"), ("admin_level", "9"), ("boundary", "administrative")], vec![]),
        relation(6, &[("name", "F"), ("admin_level", "7"), ("boundary", "maritime")], vec![]),
        relation(7, &[("name", "G"), ("admin_level", "8"), ("boundary", "state_border")], vec![]),
    ];
    let filter = RelationFilter::standard();
    let closure = load_closure(&source, &filter, Selection::Candidates);
    let stats = summarize(&closure, &filter);
    assert_eq!(
        stats,
        vec![
            (Some("maritime".to_string()), 2),
            (Some("administrative".to_string()), 2),
            (None, 1),
            (Some("state_border".to_string()), 1),
        ]
    );
    let total: usize = stats.iter().map(|s| s.1).sum();
    assert_eq!(total, 6);
}

#[test]
fn stats_put_the_larger_count_first() {
    let source = vec![
        relation(1, &[("name", "A"), ("admin_level", "2"), ("boundary", "state_border")], vec![]),
        relation(2, ADMIN, vec![]),
        relation(3, ADMIN, vec![]),
    ];
    let filter = RelationFilter::standard();
    let stats = stats_of(&source, &filter);
    assert_eq!(
        stats,
        vec![(Some("administrative".to_string()), 2), (Some("state_border".to_string()), 1)]
    );
}

#[test]
fn empty_source_gives_empty_results() {
    let source: Vec<OsmObject> = Vec::new();
    let filter = RelationFilter::standard();
    assert_eq!(load_closure(&source, &filter, Selection::Candidates).len(), 0);
    assert!(stats_of(&source, &filter).is_empty());
    assert!(records_of(&source, &filter).is_empty());
}

#[test]
fn builder_needs_a_second_pass_for_later_dependencies() {
    let filter = RelationFilter::standard();
    let pass = || vec![node(1), relation(8, ADMIN, vec![ObjectId::Node(1)])];
    let mut b = ClosureBuilder::new();
    for o in pass() {
        let root = filter.selects(Selection::Targets, &o);
        b.offer(o, root);
    }
    assert!(b.grew());
    b.start_pass();
    for o in pass() {
        b.offer(o, false);
    }
    assert!(b.grew());
    b.start_pass();
    for o in pass() {
        b.offer(o, false);
    }
    assert!(!b.grew());
    assert_eq!(ids(&b.into_objects()), vec![ObjectId::Node(1), ObjectId::Relation(8)]);
}

#[test]
fn tag_lookup_finds_the_value() {
    let r = relation(1, ADMIN, vec![]);
    assert_eq!(r.tag(&"admin_level".to_string()), Some(&"4".to_string()));
    assert_eq!(r.tag(&"missing".to_string()), None);
    let filter = RelationFilter::standard();
    assert_eq!(filter.boundary_of(&r), Some(&"administrative".to_string()));
}

#[test]
fn way_dependencies_are_its_nodes() {
    let w = way(3, vec![5, -2]);
    assert_eq!(w.dep_keys(), vec![ObjectId::Node(5).key(), ObjectId::Node(-2).key()]);
}
