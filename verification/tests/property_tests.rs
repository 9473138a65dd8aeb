//! Focused checks of the store's stated behaviours: round trips,
//! boundary cases, error variants and the transfer envelope.

use reindeer::{
    AsBytes, AutoIncrementEntity, ChildEntity1, ChildEntity2, ChildOps, DeletionBehaviour,
    Entity, Entity1, Entity2, Entity3, EntityOps, Error, FamilyDescriptor, GrandChildEntity,
    JsonWrapper, QueryBuilder, RelationOps, RemoveOps, SiblingOps, Store,
};

fn fresh_store() -> Result<Store, Error> {
    let db = sled::Config::new().temporary(true).open().map_err(|_| Error::Engine)?;
    let mut store = Store::attach(db);
    Entity1::register(&mut store)?;
    Entity2::register(&mut store)?;
    Entity3::register(&mut store)?;
    ChildEntity1::register(&mut store)?;
    ChildEntity2::register(&mut store)?;
    GrandChildEntity::register(&mut store)?;
    Ok(store)
}

#[test]
fn save_then_get_returns_the_entity() -> Result<(), Error> {
    let mut store = fresh_store()?;
    let e = Entity1 {
        id: 7,
        prop1: String::from("pâté & crème"),
    };
    e.save(&mut store)?;
    let back = Entity1::get(&7, &store)?.unwrap();
    assert_eq!(back.id, 7);
    assert_eq!(back.prop1, "pâté & crème");
    Ok(())
}

#[test]
fn save_next_on_empty_tree_picks_zero() -> Result<(), Error> {
    let mut store = fresh_store()?;
    let mut e = Entity1 {
        id: 42,
        prop1: String::from("first"),
    };
    e.save_next(&mut store)?;
    assert_eq!(e.id, 0);
    assert!(Entity1::get(&0, &store)?.is_some());
    Ok(())
}

#[test]
fn save_next_child_on_childless_parent_picks_zero() -> Result<(), Error> {
    let mut store = fresh_store()?;
    let parent = Entity2 {
        id: String::from("solo"),
        prop2: 9,
    };
    parent.save(&mut store)?;
    let mut child = ChildEntity1 {
        id: (String::from("elsewhere"), 99),
    };
    parent.save_next_child(&mut child, &mut store)?;
    assert_eq!(child.get_key().0, "solo");
    assert_eq!(child.get_key().1, 0);
    Ok(())
}

#[test]
fn empty_query_returns_empty_set() -> Result<(), Error> {
    let mut store = fresh_store()?;
    let e = Entity1 {
        id: 1,
        prop1: String::from("present"),
    };
    e.save(&mut store)?;
    let result = QueryBuilder::new().get::<Entity1>(&store)?;
    assert_eq!(result.len(), 0);
    Ok(())
}

#[test]
fn self_cycle_removal_terminates() -> Result<(), Error> {
    let mut store = fresh_store()?;
    let e = Entity1 {
        id: 5,
        prop1: String::from("loop"),
    };
    e.save(&mut store)?;
    e.create_relation(
        &e,
        DeletionBehaviour::BreakLink,
        DeletionBehaviour::BreakLink,
        Some("self"),
        &mut store,
    )?;
    assert!(e.is_related_to_with_name(&e, "self", &store)?);
    assert!(Entity1::remove(&5, &mut store).is_ok());
    assert!(Entity1::get(&5, &store)?.is_none());
    Ok(())
}

#[test]
fn blocked_removal_changes_nothing() -> Result<(), Error> {
    let mut store = fresh_store()?;
    let a = Entity1 {
        id: 1,
        prop1: String::from("protected"),
    };
    a.save(&mut store)?;
    let b = Entity2 {
        id: String::from("guard"),
        prop2: 4,
    };
    b.save(&mut store)?;
    // Deleting `a` is refused while this edge exists.
    a.create_relation(
        &b,
        DeletionBehaviour::Error,
        DeletionBehaviour::BreakLink,
        Some("shield"),
        &mut store,
    )?;
    let res = Entity1::remove(&1, &mut store);
    match &res {
        Err(Error::DeletionBlocked { store: st, key, blocker_store, blocker_key }) => {
            assert_eq!(st, &b"entity_1".to_vec());
            assert_eq!(key, &vec![0u8, 0, 0, 1]);
            assert_eq!(blocker_store, &b"entity_2".to_vec());
            assert_eq!(blocker_key, &b"guard".to_vec());
        },
        other => panic!("expected a blocked removal, got {:?}", other),
    }
    let a_back = Entity1::get(&1, &store)?.unwrap();
    assert_eq!(a_back.prop1, "protected");
    let b_back = Entity2::get(&String::from("guard"), &store)?.unwrap();
    assert_eq!(b_back.prop2, 4);
    assert!(a_back.is_related_to_with_name(&b_back, "shield", &store)?);
    assert!(b_back.is_related_to_with_name(&a_back, "shield", &store)?);
    Ok(())
}

#[test]
fn relation_is_visible_on_both_sides() -> Result<(), Error> {
    let mut store = fresh_store()?;
    let a = Entity1 {
        id: 3,
        prop1: String::from("left"),
    };
    a.save(&mut store)?;
    let b = Entity3 {
        id: 8,
        some_bool: true,
    };
    b.save(&mut store)?;
    a.create_relation(
        &b,
        DeletionBehaviour::BreakLink,
        DeletionBehaviour::BreakLink,
        Some("pair"),
        &mut store,
    )?;
    assert!(a.is_related_to_with_name(&b, "pair", &store)?);
    assert!(b.is_related_to_with_name(&a, "pair", &store)?);
    Ok(())
}

#[test]
fn duplicate_relation_is_idempotent_but_conflict_is_refused() -> Result<(), Error> {
    let mut store = fresh_store()?;
    let a = Entity1 {
        id: 1,
        prop1: String::from("a"),
    };
    a.save(&mut store)?;
    let b = Entity3 {
        id: 2,
        some_bool: false,
    };
    b.save(&mut store)?;
    a.create_relation(
        &b,
        DeletionBehaviour::BreakLink,
        DeletionBehaviour::BreakLink,
        Some("again"),
        &mut store,
    )?;
    // The same triple with the same behaviours changes nothing.
    assert!(a
        .create_relation(
            &b,
            DeletionBehaviour::BreakLink,
            DeletionBehaviour::BreakLink,
            Some("again"),
            &mut store
        )
        .is_ok());
    assert_eq!(a.get_related::<Entity3>(&store)?.len(), 1);
    // The same triple with other behaviours is a conflicting duplicate.
    let res = a.create_relation(
        &b,
        DeletionBehaviour::Cascade,
        DeletionBehaviour::Error,
        Some("again"),
        &mut store,
    );
    assert!(matches!(res, Err(Error::InvalidRelation)));
    Ok(())
}

#[test]
fn undeclared_sibling_save_is_refused() -> Result<(), Error> {
    let mut store = fresh_store()?;
    let a = Entity1 {
        id: 1,
        prop1: String::from("one"),
    };
    a.save(&mut store)?;
    let mut b = Entity1 {
        id: 9,
        prop1: String::from("other"),
    };
    let res = a.save_sibling(&mut b, &mut store);
    assert!(matches!(res, Err(Error::InvalidRelation)));
    Ok(())
}

#[test]
fn auto_increment_overflow_is_refused() -> Result<(), Error> {
    let mut store = fresh_store()?;
    let top = Entity1 {
        id: u32::MAX,
        prop1: String::from("ceiling"),
    };
    top.save(&mut store)?;
    let mut next = Entity1 {
        id: 0,
        prop1: String::from("one too many"),
    };
    let res = next.save_next(&mut store);
    assert!(matches!(res, Err(Error::AutoIncrementUnsupported)));
    Ok(())
}

#[test]
fn conflicting_registration_is_refused() -> Result<(), Error> {
    let mut store = fresh_store()?;
    // Re-registering the same declaration is idempotent.
    assert!(Entity1::register(&mut store).is_ok());
    // A different persisted declaration under the same name is refused.
    let foreign = FamilyDescriptor {
        name: Entity1::store_name(),
        version: 2,
        child_trees: Vec::new(),
        sibling_trees: Vec::new(),
    };
    foreign.put(&mut store)?;
    let res = Entity1::register(&mut store);
    assert!(matches!(res, Err(Error::RegistrationConflict)));
    Ok(())
}

#[test]
fn child_key_encoding_begins_with_parent_key() {
    let parent = String::from("id3");
    let child_key = (String::from("id3"), 7u32);
    let pb = parent.key_bytes();
    let cb = child_key.key_bytes();
    assert!(cb.len() > pb.len());
    assert_eq!(&cb[..pb.len()], &pb[..]);
}

#[test]
fn get_each_returns_found_in_order() -> Result<(), Error> {
    let mut store = fresh_store()?;
    for i in 0..3u32 {
        let e = Entity1 {
            id: i,
            prop1: format!("row {}", i),
        };
        e.save(&mut store)?;
    }
    let keys = vec![2u32, 9, 0];
    let found = Entity1::get_each(&keys, &store)?;
    assert_eq!(found.len(), 2);
    assert_eq!(found[0].id, 2);
    assert_eq!(found[1].id, 0);
    assert_eq!(Entity1::get_count(&store)?, 3);
    Ok(())
}

#[test]
fn export_import_reproduces_entities_and_edges() -> Result<(), Error> {
    let mut store = fresh_store()?;
    let a = Entity1 {
        id: 1,
        prop1: String::from("carried"),
    };
    a.save(&mut store)?;
    let b = Entity1 {
        id: 2,
        prop1: String::from("plain"),
    };
    b.save(&mut store)?;
    let c = Entity3 {
        id: 1,
        some_bool: true,
    };
    c.save(&mut store)?;
    a.create_relation(
        &c,
        DeletionBehaviour::BreakLink,
        DeletionBehaviour::BreakLink,
        Some("kept"),
        &mut store,
    )?;
    let ones = JsonWrapper::from(vec![a, b], &store)?;
    let threes = JsonWrapper::from(vec![c], &store)?;

    let mut target = fresh_store()?;
    ones.save(&mut target)?;
    threes.save(&mut target)?;
    let a2 = Entity1::get(&1, &target)?.unwrap();
    assert_eq!(a2.prop1, "carried");
    let b2 = Entity1::get(&2, &target)?.unwrap();
    assert_eq!(b2.prop1, "plain");
    let c2 = Entity3::get(&1, &target)?.unwrap();
    assert!(c2.some_bool);
    assert!(a2.is_related_to_with_name(&c2, "kept", &target)?);
    assert!(c2.is_related_to_with_name(&a2, "kept", &target)?);
    Ok(())
}

#[test]
fn query_with_ids_filters_by_parent() -> Result<(), Error> {
    let mut store = fresh_store()?;
    let parent = Entity2 {
        id: String::from("p"),
        prop2: 0,
    };
    parent.save(&mut store)?;
    let mut child = ChildEntity1 {
        id: (String::from("x"), 0),
    };
    parent.save_next_child(&mut child, &mut store)?;
    parent.save_next_child(&mut child, &mut store)?;
    // Explicit keys, restricted to the parent's prefix.
    let hits = QueryBuilder::new()
        .with_id(&(String::from("p"), 1u32))
        .with_id(&(String::from("q"), 1u32))
        .with_parent(&String::from("p"))
        .get::<ChildEntity1>(&store)?;
    assert_eq!(hits.len(), 1);
    assert_eq!(hits[0].get_key().1, 1);
    Ok(())
}

#[test]
fn removal_of_missing_entity_succeeds_quietly() -> Result<(), Error> {
    let mut store = fresh_store()?;
    assert!(Entity1::remove(&77, &mut store).is_ok());
    assert!(Entity1::get(&77, &store)?.is_none());
    Ok(())
}

#[test]
fn single_related_returns_first_match() -> Result<(), Error> {
    let mut store = fresh_store()?;
    let hub = Entity2 {
        id: String::from("hub"),
        prop2: 1,
    };
    hub.save(&mut store)?;
    for i in 0..2u32 {
        let spoke = Entity3 {
            id: i,
            some_bool: false,
        };
        spoke.save(&mut store)?;
        hub.create_relation(
            &spoke,
            DeletionBehaviour::BreakLink,
            DeletionBehaviour::BreakLink,
            Some("spoke"),
            &mut store,
        )?;
    }
    let first = hub.get_single_related_with_name::<Entity3>("spoke", &store)?;
    assert_eq!(first.unwrap().id, 0);
    let none = hub.get_single_related_with_name::<Entity3>("nothing", &store)?;
    assert!(none.is_none());
    Ok(())
}

#[test]
fn error_edge_outranks_cascade_path() -> Result<(), Error> {
    let mut store = fresh_store()?;
    let parent = Entity2 {
        id: String::from("dual"),
        prop2: 0,
    };
    parent.save(&mut store)?;
    let mut child = ChildEntity1 {
        id: (String::from("x"), 0),
    };
    parent.save_next_child(&mut child, &mut store)?;
    // The child is reachable both as a cascading declared child and
    // through an error-policy edge: the refusal wins.
    parent.create_relation(
        &child,
        DeletionBehaviour::Error,
        DeletionBehaviour::BreakLink,
        Some("hold"),
        &mut store,
    )?;
    let res = Entity2::remove(&String::from("dual"), &mut store);
    assert!(matches!(res, Err(Error::DeletionBlocked { .. })));
    assert!(Entity2::get(&String::from("dual"), &store)?.is_some());
    assert!(ChildEntity1::get(&(String::from("dual"), 0), &store)?.is_some());
    Ok(())
}

#[test]
fn unregistered_name_reports_no_family() -> Result<(), Error> {
    let store = fresh_store()?;
    assert!(!FamilyDescriptor::is_registered(&String::from("no_such_store"), &store)?);
    assert!(FamilyDescriptor::get(&String::from("no_such_store"), &store)?.is_none());
    Ok(())
}

#[test]
fn break_link_removal_severs_edge_and_spares_peer() -> Result<(), Error> {
    let mut store = fresh_store()?;
    let a = Entity1 {
        id: 4,
        prop1: String::from("leaving"),
    };
    a.save(&mut store)?;
    let b = Entity3 {
        id: 6,
        some_bool: false,
    };
    b.save(&mut store)?;
    a.create_relation(
        &b,
        DeletionBehaviour::BreakLink,
        DeletionBehaviour::BreakLink,
        Some("loose"),
        &mut store,
    )?;
    assert!(b.is_related_to_with_name(&a, "loose", &store)?);
    assert!(Entity1::remove(&4, &mut store).is_ok());
    // The peer survives; its back-reference is gone.
    assert!(Entity3::get(&6, &store)?.is_some());
    assert!(!b.is_related_to_with_name(&a, "loose", &store)?);
    assert_eq!(b.get_related::<Entity1>(&store)?.len(), 0);
    Ok(())
}
