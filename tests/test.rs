use ecs_tiny::{CompA, CompKey, Component, ECS};

#[derive(Debug, Clone, PartialEq, Eq)]
enum Comp {
    Unit(()),
    I32(i32),
}

const UNIT: usize = 0;
const I32: usize = 1;

impl Component for Comp {
    fn kind_of(&self) -> usize {
        self.kind()
    }

    fn kind(&self) -> usize {
        match self {
            Comp::Unit(_) => UNIT,
            Comp::I32(_) => I32,
        }
    }
}

fn add_one(c: Comp) -> Comp {
    match c {
        Comp::I32(x) => Comp::I32(x + 1),
        other => other,
    }
}

#[test]
fn crud_entity() {
    let mut ecs = ECS::<Comp>::new();
    let entity_key = ecs.insert_entity();

    assert!(ecs.get_entity(entity_key).is_some());
    assert!(ecs.remove_entity(entity_key).is_some());

    assert!(ecs.get_entity(entity_key).is_none());
    assert!(ecs.remove_entity(entity_key).is_none());
}

#[test]
fn crud_comp() {
    let mut ecs = ECS::<Comp>::new();
    let entity_key = ecs.insert_entity();
    let comp_key = ecs.insert_comp(entity_key, Comp::I32(42)).unwrap();

    assert_eq!(ecs.get_comp(comp_key), Some(&Comp::I32(42)));
    assert_eq!(ecs.get_comp_mut(comp_key), Some(&mut Comp::I32(42)));
    assert_eq!(ecs.remove_comp(comp_key), Some(Comp::I32(42)));

    assert_eq!(ecs.get_comp(comp_key), None);
    assert_eq!(ecs.get_comp_mut(comp_key), None);
    assert_eq!(ecs.remove_comp(comp_key), None);
}

#[test]
fn insert_comp_with_invalid_entity() {
    let mut ecs = ECS::<Comp>::new();
    let entity_key = ecs.insert_entity();
    ecs.remove_entity(entity_key).unwrap();

    assert!(ecs.insert_comp(entity_key, Comp::I32(42)).is_none());
}

#[test]
fn remove_entity_and_associated_comp() {
    let mut ecs = ECS::<Comp>::new();
    let entity_key = ecs.insert_entity();
    let comp_key = ecs.insert_comp(entity_key, Comp::I32(42)).unwrap();

    assert!(ecs.remove_entity(entity_key).is_some());

    assert!(ecs.get_entity(entity_key).is_none());
    assert!(ecs.get_comp(comp_key).is_none());
    assert!(ecs.get_comp_mut(comp_key).is_none());
}

#[test]
fn iter_entity() {
    let mut ecs = ECS::<Comp>::new();
    let entity_key0 = ecs.insert_entity();
    let entity_key1 = ecs.insert_entity();
    let mut iter = ecs.iter_entity().into_iter();

    assert_eq!(iter.next(), Some(entity_key0));
    assert_eq!(iter.next(), Some(entity_key1));
    assert_eq!(iter.next(), None);
}

#[test]
fn iter_comp() {
    let mut ecs = ECS::<Comp>::new();
    let entity_key0 = ecs.insert_entity();
    let entity_key1 = ecs.insert_entity();
    ecs.insert_comp(entity_key0, Comp::I32(42)).unwrap();
    ecs.insert_comp(entity_key0, Comp::I32(63)).unwrap();
    ecs.insert_comp(entity_key1, Comp::I32(42)).unwrap();
    ecs.insert_comp(entity_key1, Comp::Unit(())).unwrap();
    let mut iter = ecs.iter_comp(I32).unwrap().into_iter();

    assert_eq!(iter.next(), Some(&Comp::I32(42)));
    assert_eq!(iter.next(), Some(&Comp::I32(63)));
    assert_eq!(iter.next(), Some(&Comp::I32(42)));
    assert_eq!(iter.next(), None);

    drop(iter);
    assert!(ecs.iter_comp_mut(I32, add_one).is_some());
    let mut iter = ecs.iter_comp(I32).unwrap().into_iter();

    assert_eq!(iter.next(), Some(&Comp::I32(43)));
    assert_eq!(iter.next(), Some(&Comp::I32(64)));
    assert_eq!(iter.next(), Some(&Comp::I32(43)));
    assert_eq!(iter.next(), None);
}

#[test]
fn iter_comp_with_invalid_type() {
    let mut ecs = ECS::<Comp>::new();

    assert!(ecs.iter_comp(I32).is_none());
    assert!(ecs.iter_comp_mut(I32, add_one).is_none());
}

#[test]
fn get_entity_by_comp() {
    let mut ecs = ECS::<Comp>::new();
    let entity_key0 = ecs.insert_entity();
    let entity_key1 = ecs.insert_entity();
    let comp_key0 = ecs.insert_comp(entity_key0, Comp::I32(42)).unwrap();
    let comp_key1 = ecs.insert_comp(entity_key0, Comp::I32(63)).unwrap();
    let comp_key2 = ecs.insert_comp(entity_key1, Comp::I32(42)).unwrap();
    let comp_key3 = ecs.insert_comp(entity_key1, Comp::Unit(())).unwrap();
    ecs.remove_comp(comp_key2).unwrap();

    assert_eq!(ecs.get_entity_by_comp(comp_key0), Some(entity_key0));
    assert_eq!(ecs.get_entity_by_comp(comp_key1), Some(entity_key0));
    assert_eq!(ecs.get_entity_by_comp(comp_key2), None);
    assert_eq!(ecs.get_entity_by_comp(comp_key3), Some(entity_key1));
}

#[test]
fn iter_comp_by_entity() {
    let mut ecs = ECS::<Comp>::new();
    let entity_key0 = ecs.insert_entity();
    let entity_key1 = ecs.insert_entity();
    ecs.insert_comp(entity_key0, Comp::I32(42)).unwrap();
    ecs.insert_comp(entity_key0, Comp::I32(63)).unwrap();
    ecs.insert_comp(entity_key1, Comp::I32(42)).unwrap();
    ecs.insert_comp(entity_key1, Comp::Unit(())).unwrap();
    let mut iter = ecs.iter_comp_by_entity(entity_key0, I32).unwrap().into_iter();

    assert_eq!(iter.next(), Some(&Comp::I32(42)));
    assert_eq!(iter.next(), Some(&Comp::I32(63)));
    assert_eq!(iter.next(), None);

    drop(iter);
    assert!(ecs.iter_comp_mut_by_entity(entity_key0, I32, add_one).is_some());
    let mut iter = ecs.iter_comp_by_entity(entity_key0, I32).unwrap().into_iter();

    assert_eq!(iter.next(), Some(&Comp::I32(43)));
    assert_eq!(iter.next(), Some(&Comp::I32(64)));
    assert_eq!(iter.next(), None);
}

#[test]
fn clear() {
    let mut ecs = ECS::<Comp>::new();
    let entity_key0 = ecs.insert_entity();
    let entity_key1 = ecs.insert_entity();
    ecs.insert_comp(entity_key0, Comp::I32(42)).unwrap();
    ecs.insert_comp(entity_key0, Comp::I32(63)).unwrap();
    ecs.insert_comp(entity_key1, Comp::I32(42)).unwrap();
    ecs.insert_comp(entity_key1, Comp::Unit(())).unwrap();
    ecs.clear();
}

#[test]
fn clear_empties_the_store() {
    let mut ecs = ECS::<Comp>::new();
    let e = ecs.insert_entity();
    let k = ecs.insert_comp(e, Comp::I32(42)).unwrap();
    ecs.clear();

    assert!(ecs.get_entity(e).is_none());
    assert!(ecs.get_comp(k).is_none());
    assert!(ecs.iter_entity().is_empty());
    assert!(ecs.iter_comp(I32).is_none());
}

#[test]
fn new_entity_is_live_and_owns_nothing() {
    let mut ecs = ECS::<Comp>::new();
    let e = ecs.insert_entity();
    ecs.register(I32).unwrap();

    assert!(ecs.get_entity(e).is_some());
    assert_eq!(ecs.iter_comp_by_entity(e, I32), Some(vec![]));
}

#[test]
fn insert_then_get_returns_the_value() {
    let mut ecs = ECS::<CompA>::new();
    let e = ecs.insert_entity();
    let k = ecs.insert_comp(e, CompA::new("text".to_string())).unwrap();

    assert_eq!(ecs.get_comp(k).unwrap().content, "text");
}

#[test]
fn remove_comp_twice_fails_the_second_time() {
    let mut ecs = ECS::<Comp>::new();
    let e = ecs.insert_entity();
    let k = ecs.insert_comp(e, Comp::I32(7)).unwrap();

    assert_eq!(ecs.remove_comp(k), Some(Comp::I32(7)));
    assert_eq!(ecs.remove_comp(k), None);
    assert!(ecs.get_entity(e).is_some());
}

#[test]
fn key_of_another_kind_resolves_to_nothing() {
    let mut ecs = ECS::<Comp>::new();
    let e = ecs.insert_entity();
    let k = ecs.insert_comp(e, Comp::I32(42)).unwrap();
    assert_eq!(k.0, I32);
    ecs.register(UNIT).unwrap();
    let forged: CompKey = (UNIT, k.1);

    assert_eq!(ecs.get_comp(forged), None);
    assert_eq!(ecs.get_comp_mut(forged), None);
    assert_eq!(ecs.remove_comp(forged), None);
    assert_eq!(ecs.get_entity_by_comp(forged), None);
    assert_eq!(ecs.get_comp(k), Some(&Comp::I32(42)));
}

#[test]
fn scoped_iteration_ignores_other_entities() {
    let mut ecs = ECS::<Comp>::new();
    let e0 = ecs.insert_entity();
    let e1 = ecs.insert_entity();
    ecs.insert_comp(e0, Comp::I32(42)).unwrap();
    ecs.insert_comp(e0, Comp::I32(63)).unwrap();
    ecs.insert_comp(e1, Comp::I32(42)).unwrap();
    ecs.insert_comp(e1, Comp::Unit(())).unwrap();

    assert_eq!(
        ecs.iter_comp_by_entity(e0, I32),
        Some(vec![&Comp::I32(42), &Comp::I32(63)])
    );
    assert_eq!(
        ecs.iter_comp(I32),
        Some(vec![&Comp::I32(42), &Comp::I32(63), &Comp::I32(42)])
    );
    assert_eq!(ecs.iter_comp_by_entity(e1, UNIT), Some(vec![&Comp::Unit(())]));
}

#[test]
fn scoped_mutation_is_visible_to_get_comp() {
    let mut ecs = ECS::<Comp>::new();
    let e0 = ecs.insert_entity();
    let e1 = ecs.insert_entity();
    let k0 = ecs.insert_comp(e0, Comp::I32(1)).unwrap();
    let k1 = ecs.insert_comp(e1, Comp::I32(10)).unwrap();
    let k2 = ecs.insert_comp(e0, Comp::Unit(())).unwrap();

    ecs.iter_comp_mut_by_entity(e0, I32, add_one).unwrap();

    assert_eq!(ecs.get_comp(k0), Some(&Comp::I32(2)));
    assert_eq!(ecs.get_comp(k1), Some(&Comp::I32(10)));
    assert_eq!(ecs.get_comp(k2), Some(&Comp::Unit(())));
}

#[test]
fn write_through_get_comp_mut_is_kept() {
    let mut ecs = ECS::<Comp>::new();
    let e = ecs.insert_entity();
    let k = ecs.insert_comp(e, Comp::I32(5)).unwrap();
    *ecs.get_comp_mut(k).unwrap() = Comp::I32(6);

    assert_eq!(ecs.get_comp(k), Some(&Comp::I32(6)));
}

#[test]
fn reverse_lookup_fails_after_removal() {
    let mut ecs = ECS::<Comp>::new();
    let e = ecs.insert_entity();
    let k = ecs.insert_comp(e, Comp::I32(3)).unwrap();

    assert_eq!(ecs.get_entity_by_comp(k), Some(e));
    ecs.remove_comp(k).unwrap();
    assert_eq!(ecs.get_entity_by_comp(k), None);
}

#[test]
fn hello_world_scenario() {
    let mut ecs = ECS::<CompA>::new();
    let e = ecs.insert_entity();
    let c0 = ecs.insert_comp(e, CompA::new("Hello".to_string())).unwrap();
    let c1 = ecs.insert_comp(e, CompA::new("World".to_string())).unwrap();

    assert_eq!(ecs.get_comp(c1).unwrap().content, "World");
    assert_eq!(ecs.remove_comp(c0).unwrap().content, "Hello");
    assert!(ecs.get_comp(c0).is_none());
    assert!(ecs.remove_entity(e).is_some());
    assert!(ecs.get_comp(c1).is_none());
}

#[test]
fn register_and_unregister() {
    let mut ecs = ECS::<Comp>::new();
    let e = ecs.insert_entity();

    assert_eq!(ecs.register(I32), Some(()));
    assert_eq!(ecs.register(I32), None);
    assert_eq!(ecs.iter_comp(I32), Some(vec![]));

    let k0 = ecs.insert_comp(e, Comp::I32(1)).unwrap();
    let k1 = ecs.insert_comp(e, Comp::Unit(())).unwrap();
    assert_eq!(ecs.unregister(I32), Some(()));
    assert_eq!(ecs.unregister(I32), None);

    assert!(ecs.iter_comp(I32).is_none());
    assert!(ecs.get_comp(k0).is_none());
    assert_eq!(ecs.get_comp(k1), Some(&Comp::Unit(())));
    assert_eq!(ecs.iter_comp_by_entity(e, UNIT), Some(vec![&Comp::Unit(())]));
    assert_eq!(ecs.remove_entity(e), Some(()));
    assert!(ecs.get_comp(k1).is_none());
}

#[test]
fn unregister_keeps_other_columns_reachable() {
    let mut ecs = ECS::<Comp>::new();
    let e = ecs.insert_entity();
    ecs.insert_comp(e, Comp::Unit(())).unwrap();
    let k = ecs.insert_comp(e, Comp::I32(9)).unwrap();
    ecs.unregister(UNIT).unwrap();

    assert_eq!(ecs.get_comp(k), Some(&Comp::I32(9)));
    assert_eq!(ecs.iter_comp(I32), Some(vec![&Comp::I32(9)]));
    let k2 = ecs.insert_comp(e, Comp::Unit(())).unwrap();
    assert_eq!(ecs.get_comp(k2), Some(&Comp::Unit(())));
}

#[test]
fn freed_slots_are_reused() {
    let mut ecs = ECS::<Comp>::new();
    let e0 = ecs.insert_entity();
    let e1 = ecs.insert_entity();
    ecs.remove_entity(e0).unwrap();
    let e2 = ecs.insert_entity();

    assert_eq!(e2, e0);
    assert_eq!(ecs.iter_entity(), vec![e0, e1]);

    let k0 = ecs.insert_comp(e1, Comp::I32(1)).unwrap();
    ecs.remove_comp(k0).unwrap();
    let k1 = ecs.insert_comp(e2, Comp::I32(2)).unwrap();
    assert_eq!(k1, k0);
    assert_eq!(ecs.get_entity_by_comp(k1), Some(e2));
}

#[test]
fn scoped_order_follows_directory_slots() {
    let mut ecs = ECS::<Comp>::new();
    let e = ecs.insert_entity();
    let u = ecs.insert_comp(e, Comp::Unit(())).unwrap();
    ecs.insert_comp(e, Comp::I32(1)).unwrap();
    ecs.remove_comp(u).unwrap();
    ecs.insert_comp(e, Comp::I32(2)).unwrap();

    assert_eq!(
        ecs.iter_comp_by_entity(e, I32),
        Some(vec![&Comp::I32(2), &Comp::I32(1)])
    );
}

#[test]
fn keys_come_in_order_in_a_fresh_store() {
    let mut ecs = ECS::<Comp>::new();
    let e0 = ecs.insert_entity();
    let e1 = ecs.insert_entity();
    assert_eq!((e0, e1), (0, 1));
    let k0 = ecs.insert_comp(e0, Comp::I32(42)).unwrap();
    let k1 = ecs.insert_comp(e0, Comp::I32(63)).unwrap();
    let k2 = ecs.insert_comp(e1, Comp::I32(42)).unwrap();
    let k3 = ecs.insert_comp(e1, Comp::Unit(())).unwrap();

    assert_eq!((k0, k1, k2, k3), ((I32, 0), (I32, 1), (I32, 2), (UNIT, 0)));
}
