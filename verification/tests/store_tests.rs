//! End-to-end exercises of the graph store.

use grapht::errors::Kind;
use grapht::model::entity::{IdEntity, IdGraph};
use grapht::model::edge::Edge;
use grapht::model::node::Node;
use grapht::model::path::Path;
use grapht::stats::{CrudResultStats, StatCount, StatMap, Stats};
use grapht::store::dataset::{DataSet, DataSetStats};
use grapht::store::value::Value;
use grapht::utils::diff::{Diff, Difference};

fn org(id: u128) -> Node<IdGraph> {
    Node::new(IdEntity::new(id, "__Organization"))
}

#[test]
fn idempotent_insertion() {
    let mut ds: DataSet<IdGraph> = DataSet::new();
    let n = org(1);
    let r1 = ds.insert(Value::Node(n.dup()));
    assert!(r1.is_ok());
    let snap1 = ds.stats();
    let r2 = ds.insert(Value::Node(n.dup()));
    assert!(r2.is_ok());
    let snap2 = ds.stats();
    assert!(snap1.diff(&snap2, None).is_empty());
    assert!(r2.unwrap().created().is_none());
}

#[test]
fn edge_dedup_same_guid() {
    let a = org(1);
    let b = org(2);
    let e1 = Edge::new(&a, &b, IdEntity::new(7, "__Knows"));
    let e2 = Edge::new(&a, &b, IdEntity::new(7, "__Knows"));
    assert_eq!(e1.get_guid(), e2.get_guid());
    let mut ds: DataSet<IdGraph> = DataSet::new();
    ds.insert(Value::Edge(e1)).unwrap();
    ds.insert(Value::Edge(e2)).unwrap();
    let st = ds.stats();
    assert_eq!(st.edges.total.count, 1);
    assert_eq!(st.nodes.total.count, 2);
}

#[test]
fn detachment_isolation() {
    let mut ds: DataSet<IdGraph> = DataSet::new();
    let a = org(1);
    ds.insert(Value::Node(a.dup())).unwrap();
    // take a handle and mutate it through create_edge: the stored copy is
    // untouched
    let mut handle = ds.nodes("").unwrap().remove(0);
    assert!(handle.is_bound());
    let b = org(2);
    let edge = handle.create_edge(IdEntity::new(9, "__Owns"), b).unwrap();
    assert!(!handle.is_bound());
    assert_eq!(handle.edges("").len(), 1);
    let stored = ds.nodes("").unwrap().remove(0);
    assert!(stored.is_bound());
    assert_eq!(stored.edges("").len(), 0);
    assert_eq!(edge.get_source().get_guid(), handle.get_guid());
}

#[test]
fn path_continuity() {
    let a = org(1);
    let b = org(2);
    let c = org(3);
    let ab = Edge::new(&a, &b, IdEntity::new(11, "__Step"));
    let bc = Edge::new(&b, &c, IdEntity::new(12, "__Step"));
    let ac = Edge::new(&a, &c, IdEntity::new(13, "__Step"));
    let p = Path::<IdGraph>::new(None, Vec::new());
    let p2 = p.add_steps(vec![ab]).unwrap();
    // continuing edge is accepted
    let p3 = p2.add_steps(vec![bc]).unwrap();
    assert_eq!(p3.end().unwrap().get_guid(), c.get_guid());
    // an edge that does not leave the current end fails with InvalidItem
    let bad = p3.add_steps(vec![ac]);
    assert!(bad.is_err());
    assert_eq!(bad.err().unwrap().kind, Kind::InvalidItem);
}

#[test]
fn path_guid_depends_on_order() {
    let a = org(1);
    let b = org(2);
    let c = org(3);
    let ab = Edge::new(&a, &b, IdEntity::new(11, "__Step"));
    let bc = Edge::new(&b, &c, IdEntity::new(12, "__Step"));
    let p1 = Path::<IdGraph>::new(None, vec![ab.dup(), bc.dup()]);
    let p2 = Path::<IdGraph>::new(None, vec![ab]);
    assert_ne!(p1.get_guid(), p2.get_guid());
    let p3 = p2.add_steps(vec![bc]).unwrap();
    assert_eq!(p1.get_guid(), p3.get_guid());
}

#[test]
fn stats_monoid_laws() {
    let mut a = StatCount::new();
    a.increase(3);
    let mut b = StatCount::new();
    b.increase(5);
    let mut c = StatCount::new();
    c.increase(7);
    let left = a.dup().add(b.dup()).add(c.dup());
    let right = a.dup().add(b.dup().add(c.dup()));
    assert_eq!(left.count, right.count);
    assert_eq!(left.count, 15);
    let z = StatCount::zero();
    assert_eq!(a.dup().add(z).count, a.count);

    let mut m1 = StatMap::new();
    m1.increase(("x".to_string(), 2));
    let mut m2 = StatMap::new();
    m2.increase(("x".to_string(), 3));
    m2.increase(("y".to_string(), 1));
    let merged = m1.add(m2);
    assert_eq!(merged.count_of("x"), 5);
    assert_eq!(merged.count_of("y"), 1);
}

#[test]
fn diff_round_trip() {
    let mut ds: DataSet<IdGraph> = DataSet::new();
    ds.insert(Value::Node(org(1))).unwrap();
    let x = ds.stats();
    let same = x.diff(&ds.stats(), None);
    assert!(same.is_empty());
    ds.insert(Value::Node(org(2))).unwrap();
    let y = ds.stats();
    let differ = x.diff(&y, None);
    assert!(!differ.is_empty());
    let pruned = differ.prune();
    assert!(!pruned.is_empty());
}

#[test]
fn crud_result_buckets() {
    let mut cs: CrudResultStats<DataSetStats> = CrudResultStats::new();
    assert!(cs.created().is_none());
    cs.add_created(DataSetStats::new());
    assert!(cs.created().is_some());
    assert!(cs.updated().is_none());
    assert!(cs.deleted().is_none());
    assert!(cs.diff_errors(&Vec::new()).is_empty());
    let empty: CrudResultStats<DataSetStats> = CrudResultStats::new();
    let combined = cs.add(empty);
    assert!(combined.created().is_some());
}

#[test]
fn organization_scenario() {
    let mut ds: DataSet<IdGraph> = DataSet::new();
    let mut a = org(1);
    assert!(a.add_label("RootOrganization"));
    assert!(a.has_label("RootOrganization"));
    ds.insert(Value::Node(a.dup())).unwrap();
    let st = ds.stats();
    assert_eq!(st.nodes.total.count, 1);
    assert_eq!(st.nodes.labels.count_of("RootOrganization"), 1);
    assert_eq!(st.nodes.labels.count_of("__Organization"), 1);

    let b = org(2);
    let edge = a.create_edge(IdEntity::new(21, "__ParentOf"), b).unwrap();
    ds.insert(Value::Edge(edge)).unwrap();
    let st2 = ds.stats();
    assert_eq!(st2.nodes.total.count, 2);
    assert_eq!(st2.edges.total.count, 1);
    assert_eq!(st2.edges.typed.count_of("__ParentOf"), 1);

    // re-inserting the unchanged root is a no-op
    ds.insert(Value::Node(a.dup())).unwrap();
    assert!(st2.diff(&ds.stats(), None).is_empty());
}

#[test]
fn node_insert_via_missing_source() {
    // inserting an edge materializes both endpoints
    let mut ds: DataSet<IdGraph> = DataSet::new();
    let a = org(1);
    let b = org(2);
    let e = Edge::new(&a, &b, IdEntity::new(31, "__Knows"));
    ds.insert(Value::Edge(e)).unwrap();
    let st = ds.stats();
    assert_eq!(st.nodes.total.count, 2);
    assert_eq!(st.edges.total.count, 1);
}

#[test]
fn duplicate_key_error_from_node_set() {
    let mut ds: DataSet<IdGraph> = DataSet::new();
    let a = org(1);
    ds.insert(Value::Node(a.dup())).unwrap();
    // the set-level insert reports the duplicate directly
    let direct = ds.nodes.insert(&a);
    assert!(direct.is_err());
    assert_eq!(direct.err().unwrap().kind, Kind::DuplicateKey);
}

#[test]
fn labels_add_and_drop() {
    let mut n = org(5);
    assert!(n.add_label("X"));
    assert!(!n.add_label("X"));
    assert!(n.has_label("X"));
    assert!(n.drop_label("X"));
    assert!(!n.has_label("X"));
    assert!(!n.drop_label("X"));
    let labels = n.get_labels();
    assert_eq!(labels.len(), 1);
    assert_eq!(labels[0], "__Organization");
}

#[test]
fn path_insert_decomposes() {
    let mut ds: DataSet<IdGraph> = DataSet::new();
    let a = org(1);
    let b = org(2);
    let ab = Edge::new(&a, &b, IdEntity::new(41, "__Step"));
    let p = Path::<IdGraph>::new(None, vec![ab]);
    ds.insert(Value::Path(p)).unwrap();
    let st = ds.stats();
    assert_eq!(st.nodes.total.count, 2);
    assert_eq!(st.edges.total.count, 1);
}

#[test]
fn diff_add_right_leaf_wins() {
    let left = Difference::Node(Some(("1".to_owned(), "2".to_owned())), Vec::new());
    let right = Difference::Node(Some(("3".to_owned(), "4".to_owned())), Vec::new());
    let combined = left.add(right);
    match combined {
        Difference::Node(Some((l, r)), kids) => {
            assert_eq!(l, "3");
            assert_eq!(r, "4");
            assert!(kids.is_empty());
        },
        _ => panic!("expected a leaf node"),
    }
}

#[test]
fn merge_grafts_at_path() {
    let leaf = Difference::Node(Some(("0".to_owned(), "1".to_owned())), Vec::new());
    let mut tree = Difference::Empty;
    tree.merge(leaf, Some(vec!["inner".to_owned(), "outer".to_owned()]));
    match tree {
        Difference::Node(None, kids) => {
            assert_eq!(kids.len(), 1);
            assert_eq!(kids[0].0, "outer");
            match &kids[0].1 {
                Difference::Node(None, inner) => {
                    assert_eq!(inner.len(), 1);
                    assert_eq!(inner[0].0, "inner");
                },
                _ => panic!("expected a nested node"),
            }
        },
        _ => panic!("expected a grafted node"),
    }
}

#[test]
fn prune_is_idempotent() {
    let mut tree = Difference::Empty;
    let clean = Difference::Node(None, Vec::new());
    let dirty = Difference::Node(Some(("5".to_owned(), "6".to_owned())), Vec::new());
    tree.merge(clean, Some(vec!["quiet".to_owned()]));
    tree.merge(dirty, Some(vec!["loud".to_owned()]));
    let once = tree.prune();
    let twice = once.prune();
    match (&once, &twice) {
        (Difference::Node(None, a), Difference::Node(None, b)) => {
            assert_eq!(a.len(), 1);
            assert_eq!(b.len(), 1);
            assert_eq!(a[0].0, "loud");
            assert_eq!(b[0].0, "loud");
        },
        _ => panic!("expected one surviving branch"),
    }
}

#[test]
fn insert_closes_over_node_index() {
    let mut ds: DataSet<IdGraph> = DataSet::new();
    let mut a = org(41);
    let b = org(42);
    let edge = a.create_edge(IdEntity::new(4142, "__Owns"), b).unwrap();
    let _ = edge;
    // `a` now carries the edge in its own index: inserting the node alone
    // must pull in the edge and its target.
    ds.insert(Value::Node(a)).unwrap();
    let st = ds.stats();
    assert_eq!(st.nodes.total.count, 2);
    assert_eq!(st.edges.total.count, 1);
}
