use entity_system::ComponentManager;
use entity_system::EntityManager;

// Each conceptual component type gets its own type key; the payload of both
// is the component's name.
const TEST_COMPONENT: u64 = 1;
const OTHER_COMPONENT: u64 = 2;

#[test]
fn new_entities_are_unique() {
    let mut em = EntityManager::new();
    let entity = em.create();
    let entity2 = em.create();

    assert!(entity != entity2);
}

#[test]
fn named_entities() {
    let mut em = EntityManager::new();
    let entity = em.create_named("One");
    let entity2 = em.create_named("Two");

    let result = em.get_named("One").unwrap();
    let result2 = em.get_named("Two").unwrap();

    assert!(result != result2);
    assert_eq!(entity, result);
    assert_eq!(entity2, result2)
}

#[test]
fn finds_components_for_type() {
    let mut em = EntityManager::new();
    let mut cm = ComponentManager::new();
    let entity = em.create();
    let entity2 = em.create();
    let component = "one";
    let component2 = "two";
    let component_other = "other";

    cm.insert(entity, TEST_COMPONENT, component);
    cm.insert(entity2, TEST_COMPONENT, component2);
    cm.insert(entity, OTHER_COMPONENT, component_other);

    {
        assert!(cm.contains(TEST_COMPONENT));
        let result = cm.find(TEST_COMPONENT);
        assert_eq!(result.len(), 2);

        assert_eq!(component, result[0].component);
        assert_eq!(component2, result[1].component);
    }
    {
        assert_eq!(component, *cm.find_mut(TEST_COMPONENT, 0));
        let result = cm.find_mut(TEST_COMPONENT, 1);
        assert_eq!(component2, *result);
        *result = "modified";
    }
    {
        let result2 = cm.find(TEST_COMPONENT);
        assert_eq!("modified", result2[1].component);
    }
}

#[test]
pub fn can_delete_components_of_type() {
    let mut em = EntityManager::new();
    let mut cm = ComponentManager::new();
    let entity = em.create();
    let entity2 = em.create();
    let component = "one";
    let component2 = "two";
    let component_other = "other";

    cm.insert(entity, TEST_COMPONENT, component);
    cm.insert(entity2, TEST_COMPONENT, component2);
    cm.insert(entity, OTHER_COMPONENT, component_other);

    assert!(cm.contains(TEST_COMPONENT));
    assert!(cm.contains(OTHER_COMPONENT));

    assert!(cm.remove(TEST_COMPONENT));
    assert!(!cm.contains(TEST_COMPONENT), "Should no longer contain component");
    assert!(cm.contains(OTHER_COMPONENT));

    assert!(!cm.remove(TEST_COMPONENT), "Removal of non-existent component should return false");
}

#[test]
fn finds_components_for_entity() {
    let mut em = EntityManager::new();
    let mut cm = ComponentManager::new();
    let entity = em.create();
    let entity_other = em.create();
    let component = "one";
    let component2 = "two";
    let component_other = "other";
    let component_entity_other = "other_entity";

    cm.insert(entity, TEST_COMPONENT, component);
    cm.insert(entity, TEST_COMPONENT, component2);
    cm.insert(entity, OTHER_COMPONENT, component_other);
    cm.insert(entity_other, TEST_COMPONENT, component_entity_other);

    {
        let result = cm.find_for(TEST_COMPONENT, entity);
        assert_eq!(result.len(), 2);
        assert_eq!(component, result[0]);
        assert_eq!(component2, result[1]);
    }
    {
        let result = cm.find_for(TEST_COMPONENT, entity_other);
        assert_eq!(result.len(), 1);
        assert_eq!(component_entity_other, result[0]);
    }
    {
        let result = cm.find_for_mut(TEST_COMPONENT, entity_other, 0);
        assert_eq!(component_entity_other, *result);
    }
    {
        assert_eq!(component2, *cm.find_for_mut(TEST_COMPONENT, entity, 1));
        let result = cm.find_for_mut(TEST_COMPONENT, entity, 0);
        assert_eq!(component, *result);
        *result = "modified";
    }
    {
        let result = cm.find_for(TEST_COMPONENT, entity);
        assert_eq!("modified", result[0]);
    }
}

#[test]
fn gets_component_for_entity() {
    let mut em = EntityManager::new();
    let mut cm = ComponentManager::new();
    let entity = em.create();
    let entity_other = em.create();
    let component = "one";
    let component2 = "two";
    let component_other = "other";
    let component_entity_other = "other_entity";

    cm.insert(entity, TEST_COMPONENT, component);
    cm.insert(entity, TEST_COMPONENT, component2);
    cm.insert(entity, OTHER_COMPONENT, component_other);
    cm.insert(entity_other, TEST_COMPONENT, component_entity_other);

    {
        let result = cm.get(TEST_COMPONENT, entity);
        assert_eq!(component, result);
    }
    {
        let result = cm.get(TEST_COMPONENT, entity_other);
        assert_eq!(component_entity_other, result);
    }
    {
        let result = cm.get_mut(TEST_COMPONENT, entity_other);
        assert_eq!(component_entity_other, *result);
    }
    {
        let result = cm.get_mut(TEST_COMPONENT, entity);
        assert_eq!(component, *result);
        *result = "modified";
    }
    {
        let result = cm.get(TEST_COMPONENT, entity);
        assert_eq!("modified", result);
    }
}

#[test]
fn find_immutable_before_find_mut() {
    let mut em = EntityManager::new();
    let mut cm = ComponentManager::new();
    let entity = em.create();
    let component = "one";
    cm.insert(entity, TEST_COMPONENT, component);
    {
        let immutable = cm.find(TEST_COMPONENT);
        assert_eq!(immutable[0].component, component);

        let mutable = cm.find_mut(TEST_COMPONENT, 0);
        assert_eq!(*mutable, component);
    }
    {
        let immutable = cm.find_for(TEST_COMPONENT, entity);
        assert_eq!(immutable[0], component);

        let mutable = cm.find_for_mut(TEST_COMPONENT, entity, 0);
        assert_eq!(*mutable, component);
    }
    {
        let immutable = cm.get(TEST_COMPONENT, entity);
        assert_eq!(immutable, component);

        let mutable = cm.get(TEST_COMPONENT, entity);
        assert_eq!(mutable, component);
    }
}

#[test]
fn find_entities_for_type() {
    let mut em = EntityManager::new();
    let mut cm = ComponentManager::new();
    let entity = em.create();
    let entity2 = em.create();

    cm.insert(entity, TEST_COMPONENT, "entity_test");
    cm.insert(entity, TEST_COMPONENT, "entity_test2");
    cm.insert(entity2, TEST_COMPONENT, "entity2_test");
    cm.insert(entity2, OTHER_COMPONENT, "entity2_other");

    let result = cm.find_entities_for_type(TEST_COMPONENT);
    assert_eq!(result.len(), 2);
    assert!(result[0] != result[1]);
    for &e in result.iter() {
        assert!(e == entity || e == entity2);
    }
}

#[test]
fn find_for_is_empty_for_entity_without_the_type() {
    let mut em = EntityManager::new();
    let mut cm = ComponentManager::new();
    let entity = em.create();
    let entity2 = em.create();

    cm.insert(entity, OTHER_COMPONENT, "other");
    cm.insert(entity2, TEST_COMPONENT, "test");

    // `entity` is known to the manager but owns no TEST_COMPONENT: the
    // per-entity query answers with an empty list, unlike a query for a type
    // that was never inserted anywhere, which the contracts rule out.
    let result = cm.find_for(TEST_COMPONENT, entity);
    assert_eq!(result.len(), 0);

    // An entity the manager has never seen gets the same empty answer.
    let unknown = em.create();
    let result2 = cm.find_for(TEST_COMPONENT, unknown);
    assert_eq!(result2.len(), 0);
}

#[test]
fn counts_components_across_entities() {
    let mut em = EntityManager::new();
    let mut cm = ComponentManager::new();
    let a = em.create();
    let b = em.create();

    cm.insert(a, TEST_COMPONENT, "a_first");
    cm.insert(a, TEST_COMPONENT, "a_second");
    cm.insert(a, OTHER_COMPONENT, "a_other");
    cm.insert(b, TEST_COMPONENT, "b_first");

    assert_eq!(cm.find(TEST_COMPONENT).len(), 3);
    assert_eq!(cm.find_for(TEST_COMPONENT, a).len(), 2);
    assert_eq!(cm.find_for(TEST_COMPONENT, b).len(), 1);

    let entities = cm.find_entities_for_type(TEST_COMPONENT);
    assert_eq!(entities.len(), 2);
    assert!(entities.contains(&a));
    assert!(entities.contains(&b));
}

#[test]
fn renaming_registers_last_id() {
    let mut em = EntityManager::new();
    let hero = em.create_named("hero");
    let hero2 = em.create_named("hero");

    assert!(hero != hero2);
    assert_eq!(em.get_named("hero").unwrap(), hero2);
}

#[test]
fn named_entity_miss_reports_key() {
    let mut em = EntityManager::new();
    em.create_named("One");

    let result = em.get_named("Two");
    assert_eq!(result, Err(String::from("Two")));
}

#[test]
fn reinsert_after_remove_starts_fresh() {
    let mut em = EntityManager::new();
    let mut cm = ComponentManager::new();
    let a = em.create();
    let b = em.create();

    cm.insert(a, TEST_COMPONENT, "first");
    cm.insert(b, TEST_COMPONENT, "second");

    assert!(cm.remove(TEST_COMPONENT));
    assert!(!cm.contains(TEST_COMPONENT));
    assert_eq!(cm.find_entities_for_type(TEST_COMPONENT).len(), 0);

    cm.insert(b, TEST_COMPONENT, "fresh");
    let records = cm.find(TEST_COMPONENT);
    assert_eq!(records.len(), 1);
    assert_eq!(records[0].entity, b);
    assert_eq!(records[0].component, "fresh");

    let entities = cm.find_entities_for_type(TEST_COMPONENT);
    assert_eq!(entities.len(), 1);
    assert_eq!(entities[0], b);
}

#[test]
fn empty_manager_has_nothing() {
    let cm: ComponentManager<&'static str> = ComponentManager::new();
    assert!(!cm.contains(TEST_COMPONENT));
    assert_eq!(cm.find_entities_for_type(TEST_COMPONENT).len(), 0);

    let mut cm2: ComponentManager<&'static str> = ComponentManager::new();
    assert!(!cm2.remove(TEST_COMPONENT));
}

#[test]
fn mutation_through_find_mut_is_seen_by_every_reader() {
    let mut em = EntityManager::new();
    let mut cm = ComponentManager::new();
    let a = em.create();
    let b = em.create();

    cm.insert(a, TEST_COMPONENT, "one");
    cm.insert(b, TEST_COMPONENT, "two");

    *cm.find_mut(TEST_COMPONENT, 1) = "modified";

    assert_eq!(cm.find(TEST_COMPONENT)[1].component, "modified");
    assert_eq!(cm.find_for(TEST_COMPONENT, b)[0], "modified");
    assert_eq!(cm.get(TEST_COMPONENT, b), "modified");
    assert_eq!(cm.find(TEST_COMPONENT)[0].component, "one");
    assert_eq!(cm.find_for(TEST_COMPONENT, a)[0], "one");
}
