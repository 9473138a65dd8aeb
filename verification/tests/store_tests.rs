//! Integration tests driving the store end to end through the six
//! reference entity types: registration, saves, auto-increment keys,
//! children, siblings, free named relations, policy-driven removal,
//! adoption and queries.

use reindeer::{
    AdoptOps, AutoIncrementEntity, ChildEntity1, ChildEntity2, ChildOps, DeletionBehaviour,
    Entity, Entity1, Entity2, Entity3, EntityOps, Error, FamilyDescriptor, GrandChildEntity,
    QueryBuilder, RelationOps, RemoveOps, SiblingOps, Store,
};

fn set_up() -> Result<Store, Error> {
    let db = sled::Config::new().temporary(true).open().map_err(|_| Error::Engine)?;
    let mut store = Store::attach(db);
    Entity1::register(&mut store)?;
    Entity2::register(&mut store)?;
    Entity3::register(&mut store)?;
    ChildEntity1::register(&mut store)?;
    ChildEntity2::register(&mut store)?;
    GrandChildEntity::register(&mut store)?;
    Ok(store)
}

fn set_up_content(store: &mut Store) -> Result<(), Error> {
    let mut e1 = Entity1 {
        id: 0,
        prop1: String::from("Hello, World!"),
    };
    e1.save_next(store)?;
    e1.prop1 = String::from("Hello, Nancy!");
    e1.save_next(store)?;
    e1.prop1 = String::from("Hello, Steeve!");
    e1.save_next(store)?;
    let mut e2 = Entity2 {
        id: String::from("id1"),
        prop2: 3,
    };
    e2.save(store)?;
    e2.set_key(&String::from("id2"));
    e2.prop2 = 5;
    e2.save(store)?;
    let e2_2 = e2.clone();
    e2.set_key(&String::from("id3"));
    e2.prop2 = 1000;
    e2.save(store)?;
    let mut e3 = Entity3 {
        id: 0,
        some_bool: false,
    };
    e3.save_next(store)?;
    e3.save_next(store)?;
    let mut e4 = ChildEntity1 {
        id: (String::from("id0"), 0),
    };
    e3.some_bool = true;
    e3.save_next(store)?;

    e2.save_next_child(&mut e4, store)?;
    e2.save_next_child(&mut e4, store)?;
    e2.save_next_child(&mut e4, store)?;
    let mut e4_2 = e4.clone();
    e2_2.save_next_child(&mut e4_2, store)?;

    let mut e5 = ChildEntity2 { id: (0, 0) };
    e3.save_next_child(&mut e5, store)?;
    e3.save_next_child(&mut e5, store)?;
    e4.create_relation(
        &e5,
        DeletionBehaviour::BreakLink,
        DeletionBehaviour::BreakLink,
        None,
        store,
    )?;
    e3.save_next_child(&mut e5, store)?;
    let mut grand_child = GrandChildEntity {
        id: ((String::from("id0"), 1), 0),
    };
    e4.save_next_child(&mut grand_child, store)?;
    e4.save_next_child(&mut grand_child, store)?;
    e4.save_next_child(&mut grand_child, store)?;
    assert_eq!(grand_child.get_key().0 .0, "id3");
    assert_eq!(grand_child.get_key().0 .1, 2);
    assert_eq!(grand_child.get_key().1, 2);
    Ok(())
}

#[test]
fn create_and_register() -> Result<(), Error> {
    let store = set_up()?;
    assert!(FamilyDescriptor::is_registered(&String::from("entity_1"), &store)?);
    assert!(FamilyDescriptor::is_registered(&String::from("entity_2"), &store)?);
    assert!(FamilyDescriptor::is_registered(
        &String::from("child_entity_1"),
        &store
    )?);
    let fam_desc = FamilyDescriptor::get(&String::from("entity_1"), &store)?;
    assert!(fam_desc.is_some());
    assert_eq!(fam_desc.unwrap().sibling_trees.len(), 1);
    Ok(())
}

#[test]
fn test_save_save_next_and_get() -> Result<(), Error> {
    let mut store = set_up()?;
    set_up_content(&mut store)?;
    let e1_0 = Entity1::get(&0, &store)?;
    let e1_1 = Entity1::get(&1, &store)?;
    let e2_1 = Entity2::get(&String::from("id1"), &store)?;
    let e2_2 = Entity2::get(&String::from("id2"), &store)?;
    assert!(e1_0.is_some());
    assert!(e1_1.is_some());
    assert!(e2_1.is_some());
    assert!(e2_2.is_some());
    let e1_0 = e1_0.unwrap();
    let e1_1 = e1_1.unwrap();
    let e2_1 = e2_1.unwrap();
    let e2_2 = e2_2.unwrap();
    assert_eq!(e1_0.id, 0);
    assert_eq!(e1_0.prop1, "Hello, World!");
    assert_eq!(e1_1.id, 1);
    assert_eq!(e1_1.prop1, "Hello, Nancy!");
    assert!(Entity1::get(&8, &store)?.is_none());
    assert_eq!(e2_1.prop2, 3);
    assert_eq!(e2_2.prop2, 5);
    Ok(())
}

#[test]
fn test_save_and_get_children() -> Result<(), Error> {
    let mut store = set_up()?;
    set_up_content(&mut store)?;
    let child_1 = ChildEntity1::get(&(String::from("id3"), 0), &store)?;
    assert!(child_1.is_some());
    let e2_3 = Entity2::get(&String::from("id3"), &store)?.unwrap();
    let children: Vec<ChildEntity1> = e2_3.get_children(&store)?;
    assert_eq!(children.len(), 3);
    Ok(())
}

#[test]
fn test_cascade_children() -> Result<(), Error> {
    let mut store = set_up()?;
    set_up_content(&mut store)?;
    let e2_3 = Entity2::get(&String::from("id3"), &store)?.unwrap();
    let mut children: Vec<ChildEntity1> = e2_3.get_children(&store)?;
    assert_eq!(children.len(), 3);
    Entity2::remove(&String::from("id3"), &mut store)?;
    assert!(Entity2::get(&String::from("id3"), &store)?.is_none());
    children = e2_3.get_children(&store)?;
    assert_eq!(children.len(), 0);
    Ok(())
}

#[test]
fn test_delete_children_error() -> Result<(), Error> {
    let mut store = set_up()?;
    set_up_content(&mut store)?;
    let e3_2 = Entity3::get(&2, &store)?.unwrap();
    let mut children: Vec<ChildEntity2> = e3_2.get_children(&store)?;
    assert_eq!(children.len(), 3);
    assert!(Entity3::remove(&2, &mut store).is_err());
    let e3_2 = Entity3::get(&2, &store)?;
    assert!(e3_2.is_some());
    children = e3_2.unwrap().get_children(&store)?;
    assert_eq!(children.len(), 3);
    Ok(())
}

#[test]
fn test_add_sibling() -> Result<(), Error> {
    let mut store = set_up()?;
    set_up_content(&mut store)?;
    let mut e1 = Entity1 {
        id: 0,
        prop1: String::from("First Sibling"),
    };
    e1.save_next(&mut store)?;
    let mut e3 = Entity3 {
        id: 0,
        some_bool: false,
    };
    e1.save_sibling(&mut e3, &mut store)?;
    assert_eq!(e3.id, e1.id);
    assert_eq!(e3.id, 3);
    Ok(())
}

#[test]
fn test_delete_sibling_cascade() -> Result<(), Error> {
    let mut store = set_up()?;
    set_up_content(&mut store)?;
    let mut e1 = Entity1 {
        id: 0,
        prop1: String::from("First Sibling"),
    };
    e1.save_next(&mut store)?;
    let mut e3 = Entity3 {
        id: 0,
        some_bool: false,
    };
    e1.save_sibling(&mut e3, &mut store)?;
    assert!(Entity1::remove(e1.get_key(), &mut store).is_ok());
    assert!(Entity1::get(e1.get_key(), &store)?.is_none());
    assert!(Entity3::get(e3.get_key(), &store)?.is_none());
    Ok(())
}

#[test]
fn test_delete_sibling_error() -> Result<(), Error> {
    let mut store = set_up()?;
    set_up_content(&mut store)?;
    let mut e1 = Entity1 {
        id: 0,
        prop1: String::from("First Sibling"),
    };
    e1.save_next(&mut store)?;
    let mut e3 = Entity3 {
        id: 0,
        some_bool: false,
    };
    e1.save_sibling(&mut e3, &mut store)?;
    assert!(Entity3::remove(e1.get_key(), &mut store).is_err());
    assert!(Entity1::get(e1.get_key(), &store)?.is_some());
    assert!(Entity3::get(e3.get_key(), &store)?.is_some());
    Ok(())
}

#[test]
fn test_free_relation() -> Result<(), Error> {
    let mut store = set_up()?;
    set_up_content(&mut store)?;
    let e1 = Entity1::get(&2, &store)?.unwrap();
    let e2_1 = Entity2::get(&String::from("id1"), &store)?.unwrap();
    let e2_2 = Entity2::get(&String::from("id2"), &store)?.unwrap();
    assert!(e1
        .create_relation(
            &e2_1,
            DeletionBehaviour::Cascade,
            DeletionBehaviour::Error,
            Some("relation1"),
            &mut store
        )
        .is_ok());
    assert!(e1
        .create_relation(
            &e2_2,
            DeletionBehaviour::Cascade,
            DeletionBehaviour::Error,
            Some("relation1"),
            &mut store
        )
        .is_ok());
    let related = e1.get_related::<Entity2>(&store)?;
    assert_eq!(related.len(), 2);
    assert_eq!(related[0].get_key(), "id1");
    assert_eq!(related[1].get_key(), "id2");
    Ok(())
}

#[test]
fn test_free_relation_cascade() -> Result<(), Error> {
    let mut store = set_up()?;
    set_up_content(&mut store)?;
    let mut e1 = Entity1 {
        id: 0,
        prop1: String::from("First Sibling"),
    };
    e1.save_next(&mut store)?;
    let e2_1 = Entity2::get(&String::from("id1"), &store)?.unwrap();
    let e2_2 = Entity2::get(&String::from("id2"), &store)?.unwrap();
    assert!(e1
        .create_relation(
            &e2_1,
            DeletionBehaviour::Cascade,
            DeletionBehaviour::Error,
            Some("relation1"),
            &mut store
        )
        .is_ok());
    assert!(e1
        .create_relation(
            &e2_2,
            DeletionBehaviour::Cascade,
            DeletionBehaviour::Error,
            Some("relation1"),
            &mut store
        )
        .is_ok());
    let related = e1.get_related::<Entity2>(&store)?;
    assert_eq!(related.len(), 2);
    assert!(Entity1::remove(e1.get_key(), &mut store).is_ok());
    assert_eq!(e1.get_related::<Entity2>(&store)?.len(), 0);
    assert!(Entity2::get(&String::from("id1"), &store)?.is_none());
    assert!(Entity2::get(&String::from("id2"), &store)?.is_none());
    Ok(())
}

#[test]
fn test_free_relation_error() -> Result<(), Error> {
    let mut store = set_up()?;
    set_up_content(&mut store)?;
    let mut e1 = Entity1 {
        id: 0,
        prop1: String::from("First Sibling"),
    };
    e1.save_next(&mut store)?;
    let e2_1 = Entity2::get(&String::from("id1"), &store)?.unwrap();
    let e2_2 = Entity2::get(&String::from("id2"), &store)?.unwrap();
    assert!(e1
        .create_relation(
            &e2_1,
            DeletionBehaviour::Cascade,
            DeletionBehaviour::Error,
            Some("relation1"),
            &mut store
        )
        .is_ok());
    assert!(e1
        .create_relation(
            &e2_2,
            DeletionBehaviour::Cascade,
            DeletionBehaviour::Error,
            Some("relation1"),
            &mut store
        )
        .is_ok());
    let related = e1.get_related::<Entity2>(&store)?;
    assert_eq!(related.len(), 2);
    assert!(Entity2::remove(e2_1.get_key(), &mut store).is_err());
    assert_eq!(e1.get_related::<Entity2>(&store)?.len(), 2);
    Ok(())
}

#[test]
fn test_recursive_cascade() -> Result<(), Error> {
    let mut store = set_up()?;
    set_up_content(&mut store)?;
    let mut e1 = Entity1 {
        id: 0,
        prop1: String::from("First Sibling"),
    };
    e1.save_next(&mut store)?;
    let e2_1 = Entity2::get(&String::from("id1"), &store)?.unwrap();
    let e2_3 = Entity2::get(&String::from("id3"), &store)?.unwrap();
    assert!(e1
        .create_relation(
            &e2_1,
            DeletionBehaviour::Cascade,
            DeletionBehaviour::Error,
            Some("relation1"),
            &mut store
        )
        .is_ok());
    assert!(e1
        .create_relation(
            &e2_3,
            DeletionBehaviour::Cascade,
            DeletionBehaviour::Error,
            Some("relation1"),
            &mut store
        )
        .is_ok());
    let related = e1.get_related::<Entity2>(&store)?;
    assert_eq!(related.len(), 2);
    assert!(Entity1::remove(e1.get_key(), &mut store).is_ok());
    assert_eq!(e1.get_related::<Entity2>(&store)?.len(), 0);
    assert_eq!(ChildEntity1::get_count(&store)?, 1);
    Ok(())
}

#[test]
fn test_recursive_error() -> Result<(), Error> {
    let mut store = set_up()?;
    set_up_content(&mut store)?;
    let e1 = Entity1::get(&2, &store)?.unwrap();
    let e2_1 = Entity2::get(&String::from("id1"), &store)?.unwrap();
    let e2_3 = Entity2::get(&String::from("id3"), &store)?.unwrap();
    assert!(e1
        .create_relation(
            &e2_1,
            DeletionBehaviour::Cascade,
            DeletionBehaviour::Error,
            Some("relation1"),
            &mut store
        )
        .is_ok());
    assert!(e1
        .create_relation(
            &e2_3,
            DeletionBehaviour::Cascade,
            DeletionBehaviour::Error,
            Some("relation1"),
            &mut store
        )
        .is_ok());
    let related = e1.get_related::<Entity2>(&store)?;
    assert_eq!(related.len(), 2);
    assert!(Entity1::remove(e1.get_key(), &mut store).is_err());
    assert_eq!(e1.get_related::<Entity2>(&store)?.len(), 2);
    assert_eq!(ChildEntity1::get_count(&store)?, 4);

    Ok(())
}

#[test]
fn test_adopt_child() -> Result<(), Error> {
    let mut store = set_up()?;
    set_up_content(&mut store)?;
    let e2_1 = Entity2::get(&String::from("id1"), &store)?.unwrap();
    let e2_3 = Entity2::get(&String::from("id3"), &store)?.unwrap();
    let mut children: Vec<ChildEntity1> = e2_3.get_children(&store)?;
    assert_eq!(children.len(), 3);
    assert_eq!(children[1].get_key().1, 1);
    let children_2: Vec<ChildEntity1> = e2_1.get_children(&store)?;
    assert_eq!(children_2.len(), 0);
    e2_1.adopt_as_next_child(&mut children[1], &mut store)?;
    let children: Vec<ChildEntity1> = e2_3.get_children(&store)?;
    assert_eq!(children.len(), 2);
    let other_children: Vec<ChildEntity1> = e2_1.get_children(&store)?;
    assert_eq!(other_children.len(), 1);
    assert_eq!(other_children[0].get_key().1, 0);
    Ok(())
}

#[test]
fn test_adopt_child_with_children() -> Result<(), Error> {
    let mut store = set_up()?;
    set_up_content(&mut store)?;
    let e2_1 = Entity2::get(&String::from("id1"), &store)?.unwrap();
    let e2_3 = Entity2::get(&String::from("id3"), &store)?.unwrap();
    let mut children: Vec<ChildEntity1> = e2_3.get_children(&store)?;
    let mut grand_children: Vec<GrandChildEntity> = children[2].get_children(&store)?;
    assert_eq!(grand_children.len(), 3);
    e2_1.adopt_as_next_child(&mut children[2], &mut store)?;
    let other_children: Vec<ChildEntity1> = e2_1.get_children(&store)?;
    assert_eq!(other_children.len(), 1);
    let child = &other_children[0];
    assert_eq!(child.get_key().1, 0);
    grand_children = child.get_children(&store)?;
    assert_eq!(grand_children.len(), 3);
    Ok(())
}

#[test]
fn test_adopt_child_with_relations() -> Result<(), Error> {
    let mut store = set_up()?;
    set_up_content(&mut store)?;
    let e2_1 = Entity2::get(&String::from("id1"), &store)?.unwrap();
    let e2_3 = Entity2::get(&String::from("id3"), &store)?.unwrap();
    let e3 = Entity3::get(&0, &store)?.unwrap();
    let mut children: Vec<ChildEntity1> = e2_3.get_children(&store)?;
    children[2].create_relation(
        &e3,
        DeletionBehaviour::BreakLink,
        DeletionBehaviour::BreakLink,
        None,
        &mut store,
    )?;
    e2_1.adopt_as_next_child(&mut children[2], &mut store)?;
    let other_children: Vec<ChildEntity1> = e2_1.get_children(&store)?;
    assert_eq!(other_children.len(), 1);
    let child = &other_children[0];
    assert_eq!(child.get_key().1, 0);
    assert_eq!(child.get_related::<Entity3>(&store)?.len(), 1);
    assert_eq!(e3.get_related::<ChildEntity1>(&store)?.len(), 1);
    Ok(())
}

#[test]
fn test_named_relations() -> Result<(), Error> {
    let mut store = set_up()?;
    set_up_content(&mut store)?;
    let e2_1 = Entity2::get(&String::from("id1"), &store)?.unwrap();
    let e3_1 = Entity3::get(&0, &store)?.unwrap();
    let e3_3 = Entity3::get(&2, &store)?.unwrap();
    e2_1.create_relation(
        &e3_1,
        DeletionBehaviour::BreakLink,
        DeletionBehaviour::BreakLink,
        Some("rel1"),
        &mut store,
    )?;
    e2_1.create_relation(
        &e3_3,
        DeletionBehaviour::BreakLink,
        DeletionBehaviour::BreakLink,
        Some("rel2"),
        &mut store,
    )?;
    assert!(e2_1.is_related_to(&e3_1, &store)?);
    assert!(e2_1.is_related_to(&e3_3, &store)?);
    assert!(e2_1.is_related_to_with_name(&e3_1, "rel1", &store)?);
    assert!(!e2_1.is_related_to_with_name(&e3_3, "rel1", &store)?);
    assert!(e2_1.is_related_to_with_any_name(&e3_3, &vec!["rel1", "rel2"], &store)?);
    assert_eq!(e2_1.get_related::<Entity3>(&store)?.len(), 2);
    assert_eq!(e2_1.get_related_with_name::<Entity3>("rel2", &store)?.len(), 1);
    assert_eq!(
        e2_1.get_single_related_with_name::<Entity3>("rel2", &store)?
            .unwrap()
            .id,
        2
    );
    Ok(())
}

#[test]
fn test_query_builder() -> Result<(), Error> {
    let mut store = set_up()?;
    set_up_content(&mut store)?;
    let result = QueryBuilder::new()
        .with_parent(&String::from("id3"))
        .get::<ChildEntity1>(&store)?;
    assert_eq!(result.len(), 3);
    let result_2 = QueryBuilder::new()
        .with_parent(&String::from("id3"))
        .with_relation_to::<ChildEntity2>(&(2, 1))
        .get::<ChildEntity1>(&store)?;
    assert_eq!(result_2.len(), 1);
    let child_entity_1 = ChildEntity1::get(&(String::from("id3"), 1), &store)?.unwrap();
    let child_entity_2 = ChildEntity2::get(&(2, 1), &store)?.unwrap();
    child_entity_1.create_relation(
        &child_entity_2,
        DeletionBehaviour::BreakLink,
        DeletionBehaviour::BreakLink,
        None,
        &mut store,
    )?;
    let result_3 = QueryBuilder::new()
        .with_parent(&String::from("id3"))
        .with_relation_to::<ChildEntity2>(&(2, 1))
        .get::<ChildEntity1>(&store)?;
    assert_eq!(result_3.len(), 2);
    Ok(())
}

#[test]
fn test_filtered_query_builder() -> Result<(), Error> {
    let mut store = set_up()?;
    set_up_content(&mut store)?;
    let e2_1 = Entity2::get(&String::from("id1"), &store)?.unwrap();
    let e3_1 = Entity3::get(&0, &store)?.unwrap();
    let e3_3 = Entity3::get(&2, &store)?.unwrap();
    e2_1.create_relation(
        &e3_1,
        DeletionBehaviour::BreakLink,
        DeletionBehaviour::BreakLink,
        Some("rel1"),
        &mut store,
    )?;
    e2_1.create_relation(
        &e3_3,
        DeletionBehaviour::BreakLink,
        DeletionBehaviour::BreakLink,
        Some("rel1"),
        &mut store,
    )?;
    e2_1.create_relation(
        &e3_3,
        DeletionBehaviour::BreakLink,
        DeletionBehaviour::BreakLink,
        Some("rel2"),
        &mut store,
    )?;
    let result = QueryBuilder::new()
        .with_named_relation_to::<Entity2>(&e2_1.id, "rel1")
        .get_with_filter(|e: &Entity3| e.some_bool, &store)?;
    assert_eq!(result.len(), 1);
    assert_eq!(result[0].id, 2);
    Ok(())
}
