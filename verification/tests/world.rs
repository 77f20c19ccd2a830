use kudo::{
    despawn_hierachy, set_parent, CloneStore, Cloners, ComponentValue, Entities, Entity, EntityMigrator, Error, FunctionSystem,
    HierarchyNode, QueryParameter, SystemArg, SystemParam, World, WorldClone, HIERARCHY_TYPE_ID,
};

const I32: u64 = 1;
const BOOL: u64 = 2;
const F32: u64 = 3;
const POSITION: u64 = 4;
const VELOCITY: u64 = 5;
const ROTATION: u64 = 6;

#[derive(Clone, Debug, PartialEq)]
enum Component {
    I32(i32),
    Bool(bool),
    F32(f32),
    Position([f32; 3]),
    Velocity([f32; 3]),
    Rotation([f32; 3]),
}

impl WorldClone for Component {
    fn world_clone(&self, _entity_migrator: &mut EntityMigrator) -> Self {
        self.clone()
    }
}

fn as_i32(v: &ComponentValue<Component>) -> i32 {
    match v {
        ComponentValue::Value(Component::I32(i)) => *i,
        _ => panic!("not an i32"),
    }
}

fn as_bool(v: &ComponentValue<Component>) -> bool {
    match v {
        ComponentValue::Value(Component::Bool(b)) => *b,
        _ => panic!("not a bool"),
    }
}

fn read(type_id: u64) -> QueryParameter {
    QueryParameter::read(type_id)
}

#[test]
fn async_query() {
    let mut world: World<Component> = World::new_with_cloners(Cloners::new());
    world.spawn(vec![(I32, Component::I32(3))]);

    let system = FunctionSystem::new(
        vec![SystemParam::Query(vec![read(F32)])],
        |_w: &World<Component>, _args: Vec<SystemArg>| -> f32 { 10. },
    );
    let _ = system.run(&world).unwrap();
}

#[test]
fn system_with_result() {
    let mut world: World<Component> = World::new_with_cloners(Cloners::new());
    world.spawn(vec![(I32, Component::I32(1))]);
    world.spawn(vec![(I32, Component::I32(2))]);
    world.spawn(vec![(I32, Component::I32(3))]);

    let result = FunctionSystem::new(
        vec![SystemParam::Query(vec![read(I32)])],
        |w: &World<Component>, args: Vec<SystemArg>| -> i32 {
            match &args[0] {
                SystemArg::Query(q) => q.iter(w).iter().map(|row| as_i32(row[0].unwrap())).sum(),
                _ => panic!("expected a query"),
            }
        },
    )
    .run(&world)
    .unwrap();

    assert!(result == 6);
}

#[test]
fn system_single_query() {
    let mut world: World<Component> = World::new_with_cloners(Cloners::new());
    world.spawn(vec![(I32, Component::I32(3))]);

    FunctionSystem::new(vec![SystemParam::Single(I32)], |w: &World<Component>, args: Vec<SystemArg>| match &args[0] {
        SystemArg::Single(s) => assert!(as_i32(s.get(w)) == 3),
        _ => panic!("expected a single component"),
    })
    .run(&world)
    .unwrap()
}

#[test]
fn system_multiple_parameters() {
    let mut world: World<Component> = World::new_with_cloners(Cloners::new());
    world.spawn(vec![(I32, Component::I32(3))]);
    world.spawn(vec![(I32, Component::I32(4))]);

    FunctionSystem::new(
        vec![SystemParam::Single(I32), SystemParam::Query(vec![read(I32)])],
        |_w: &World<Component>, _args: Vec<SystemArg>| {},
    )
    .run(&world)
    .unwrap()
}

/// This test intentionally creates overlapping borrows
#[test]
fn conflicting_queries() {
    let mut world: World<Component> = World::new_with_cloners(Cloners::new());
    world.spawn(vec![(I32, Component::I32(3))]);
    world.spawn(vec![(I32, Component::I32(4))]);

    assert!(FunctionSystem::new(
        vec![SystemParam::SingleMut(I32), SystemParam::Single(I32)],
        |_w: &World<Component>, _args: Vec<SystemArg>| {},
    )
    .run(&world)
    .is_err())
}

#[test]
fn mutable_closure() {
    let mut world: World<Component> = World::new_with_cloners(Cloners::new());
    world.spawn(vec![(I32, Component::I32(3))]);

    let mut internal_data = 0;
    let mut closure = |w: &World<Component>, args: Vec<SystemArg>| {
        if let SystemArg::Single(s) = &args[0] {
            internal_data += as_i32(s.get(w));
        }
    };

    FunctionSystem::new(vec![SystemParam::Single(I32)], &mut closure).run(&world).unwrap();
    FunctionSystem::new(vec![SystemParam::Single(I32)], &mut closure).run(&world).unwrap();
    assert!(internal_data == 6);
}

#[test]
fn box_system() {
    let mut world: World<Component> = World::new_with_cloners(Cloners::new());
    world.spawn(vec![(I32, Component::I32(3))]);

    let mut boxed_system: Box<dyn FnMut(&World<Component>) -> Result<(), Error>> = Box::new(|w: &World<Component>| {
        FunctionSystem::new(vec![SystemParam::Single(I32)], |w: &World<Component>, args: Vec<SystemArg>| match &args[0] {
            SystemArg::Single(s) => assert!(as_i32(s.get(w)) == 3),
            _ => panic!("expected a single component"),
        })
        .run(w)
    });
    (boxed_system)(&world).unwrap();
}

#[test]
fn three_parameters() {
    let mut world: World<Component> = World::new_with_cloners(Cloners::new());
    world.spawn(vec![(I32, Component::I32(3))]);
    world.spawn(vec![(I32, Component::I32(4))]);

    FunctionSystem::new(
        vec![SystemParam::Query(vec![read(I32), read(BOOL), read(F32)])],
        |_w: &World<Component>, _args: Vec<SystemArg>| {},
    )
    .run(&world)
    .unwrap()
}

#[test]
fn simple_spawn() {
    let mut world: World<Component> = World::new_with_cloners(Cloners::new());
    world.spawn(vec![(I32, Component::I32(1))]);
}

fn first_bool_of_i32_bool_query(world: &World<Component>) -> bool {
    FunctionSystem::new(
        vec![SystemParam::Query(vec![read(I32), read(BOOL)])],
        |w: &World<Component>, args: Vec<SystemArg>| -> bool {
            match &args[0] {
                SystemArg::Query(q) => as_bool(q.iter(w)[0][1].unwrap()),
                _ => panic!("expected a query"),
            }
        },
    )
    .run(world)
    .unwrap()
}

#[test]
fn add_component0() {
    let mut world: World<Component> = World::new_with_cloners(Cloners::new());
    let entity = world.spawn(vec![(I32, Component::I32(1))]);

    world.add_component(entity, BOOL, Component::Bool(true));
    let result = first_bool_of_i32_bool_query(&world);

    world.add_component(entity, BOOL, Component::Bool(true));

    assert!(result == true);
}

#[test]
fn add_component1() {
    let mut world: World<Component> = World::new_with_cloners(Cloners::new());

    let entity = world.spawn(vec![(BOOL, Component::Bool(true))]);
    world.add_component(entity, I32, Component::I32(10));
    let result = first_bool_of_i32_bool_query(&world);

    world.add_component(entity, BOOL, Component::Bool(true));

    assert!(result == true);
}

#[test]
fn remove_component0() {
    let mut world: World<Component> = World::new_with_cloners(Cloners::new());
    let entity = world.spawn(vec![(I32, Component::I32(1)), (BOOL, Component::Bool(true))]);
    assert!(world.remove_component(entity, BOOL) == Some(ComponentValue::Value(Component::Bool(true))));
}

#[test]
fn iterate_entities() {
    let mut world: World<Component> = World::new_with_cloners(Cloners::new());
    world.spawn(vec![(I32, Component::I32(3))]);
    world.spawn(vec![(I32, Component::I32(4))]);

    FunctionSystem::new(
        vec![SystemParam::Query(vec![read(I32)])],
        |w: &World<Component>, args: Vec<SystemArg>| match &args[0] {
            SystemArg::Query(i) => {
                let entities: Vec<Entity> = i.entities(w);
                assert!(entities[0].index() == 0);
                assert!(entities[1].index() == 1);
            },
            _ => panic!("expected a query"),
        },
    )
    .run(&world)
    .unwrap()
}

#[test]
fn option_query() {
    let mut world: World<Component> = World::new_with_cloners(Cloners::new());
    world.spawn(vec![(I32, Component::I32(3)), (BOOL, Component::Bool(true))]);
    world.spawn(vec![(I32, Component::I32(6)), (BOOL, Component::Bool(true))]);
    world.spawn(vec![(BOOL, Component::Bool(false))]);

    FunctionSystem::new(
        vec![SystemParam::Query(vec![QueryParameter::optional(read(I32)), read(BOOL)])],
        |w: &World<Component>, args: Vec<SystemArg>| match &args[0] {
            SystemArg::Query(values) => assert!(values.iter(w).len() == 3),
            _ => panic!("expected a query"),
        },
    )
    .run(&world)
    .unwrap()
}

#[test]
fn sum() {
    let mut world: World<Component> = World::new_with_cloners(Cloners::new());

    for _ in 0..10 {
        world.spawn(vec![
            (POSITION, Component::Position([1., 0., 0.])),
            (ROTATION, Component::Rotation([1., 0., 0.])),
            (VELOCITY, Component::Velocity([1., 0., 0.])),
        ]);
    }

    let query = world
        .query(vec![read(VELOCITY), QueryParameter::read_write(POSITION), read(ROTATION)])
        .unwrap();
    let rows = query.entities(&world).len();
    for row in 0..rows {
        let velocity = match query.iter(&world)[row][0] {
            Some(ComponentValue::Value(Component::Velocity(v))) => *v,
            _ => panic!("expected a velocity"),
        };
        match query.iter_mut(&mut world, row, 1) {
            Some(ComponentValue::Value(Component::Position(position))) => {
                position[0] += velocity[0];
                position[1] += velocity[1];
                position[2] += velocity[2];
            },
            _ => panic!("expected a position"),
        }
    }

    for row in query.iter(&world) {
        assert!(row[1] == Some(&ComponentValue::Value(Component::Position([2., 0., 0.]))));
    }
}

#[test]
fn mutable_query() {
    let mut world: World<Component> = World::new_with_cloners(Cloners::new());
    world.spawn(vec![(I32, Component::I32(2))]);

    FunctionSystem::new(vec![SystemParam::SingleMut(I32)], |w: &mut World<Component>, args: Vec<SystemArg>| {
        if let SystemArg::SingleMut(q) = &args[0] {
            if let ComponentValue::Value(Component::I32(i)) = q.get(w) {
                *i += 1;
            }
        }
    })
    .run_exclusive(&mut world)
    .unwrap();

    FunctionSystem::new(vec![SystemParam::Single(I32)], |w: &World<Component>, args: Vec<SystemArg>| {
        if let SystemArg::Single(q) = &args[0] {
            assert!(as_i32(q.get(w)) == 3);
        }
    })
    .run(&world)
    .unwrap();
}

#[test]
fn get_component_mut() {
    let mut world: World<Component> = World::new_with_cloners(Cloners::new());
    let entity = world.spawn(vec![(F32, Component::F32(10.)), (BOOL, Component::Bool(true))]);

    let query = world.query(vec![read(F32), QueryParameter::read_write(BOOL)]).unwrap();

    assert!(query.get_component_mut(&mut world, entity, F32).is_none());
    assert!(query.get_component_mut(&mut world, entity, BOOL).is_some());
}

#[test]
fn get_component_fail() {
    let mut world: World<Component> = World::new_with_cloners(Cloners::new());
    let entity = world.spawn(vec![(F32, Component::F32(10.))]);
    let query = world.query(vec![read(F32)]).unwrap();
    assert!(query.get_component(&world, entity, BOOL).is_none());
}

#[test]
fn hierarchy() {
    let mut world: World<Component> = World::new_with_cloners(Cloners::new());
    let parent = world.spawn(vec![(I32, Component::I32(0))]);
    let child = world.spawn(vec![(I32, Component::I32(1))]);

    set_parent(&mut world, Some(parent), child).unwrap();
}

#[test]
fn despawn() {
    let mut world: World<Component> = World::new_with_cloners(Cloners::new());
    let entity = world.spawn(vec![(I32, Component::I32(0))]);
    world.despawn(entity).unwrap();
}

#[test]
fn hierarchy_despawn() {
    let mut world: World<Component> = World::new_with_cloners(Cloners::new());
    let parent = world.spawn(vec![(I32, Component::I32(0))]);
    let child = world.spawn(vec![(I32, Component::I32(1))]);

    set_parent(&mut world, Some(parent), child).unwrap();
    world.despawn(parent).unwrap();
}

#[test]
fn hierarchy_despawn_descendants() {
    let mut world: World<Component> = World::new_with_cloners(Cloners::new());
    let parent = world.spawn(vec![(I32, Component::I32(0))]);
    let child = world.spawn(vec![(I32, Component::I32(1))]);
    let grandchild = world.spawn(vec![(I32, Component::I32(2))]);
    let other = world.spawn(vec![(I32, Component::I32(3))]);

    set_parent(&mut world, Some(parent), child).unwrap();
    set_parent(&mut world, Some(child), grandchild).unwrap();
    despawn_hierachy(&mut world, parent).unwrap();

    assert!(world.get_component(parent, I32).is_none());
    assert!(world.get_component(child, I32).is_none());
    assert!(world.get_component(grandchild, I32).is_none());
    assert!(world.get_component(other, I32) == Some(&ComponentValue::Value(Component::I32(3))));
}

#[test]
fn clone() {
    let mut cloners = Cloners::new();
    cloners.register_clone_type(BOOL);
    let mut world: World<Component> = World::new_with_cloners(cloners);
    let entity = world.spawn(vec![(BOOL, Component::Bool(false))]);
    world.clone_entity(entity).unwrap();
    assert!(world.query(vec![read(BOOL)]).unwrap().iter(&world).len() == 2);
}

#[test]
fn fail_to_clone() {
    let mut world: World<Component> = World::new_with_cloners(Cloners::new());
    let entity = world.spawn(vec![(BOOL, Component::Bool(false))]);
    assert!(world.clone_entity(entity).is_none());
}

#[test]
fn clone_world() {
    let mut clone_store = CloneStore::new();
    clone_store.register_type(BOOL);
    let mut world: World<Component> = World::new_with_clone_store(clone_store.build());
    world.spawn(vec![(BOOL, Component::Bool(true))]);

    let world_cloned = world.clone();
    assert!(world_cloned.query(vec![read(BOOL)]).unwrap().iter(&world_cloned).len() == 1)
}

#[test]
fn clone_keeps_only_cloned_types() {
    let mut cloners = Cloners::new();
    cloners.register_clone_type(I32);
    let mut world: World<Component> = World::new_with_cloners(cloners);
    let entity = world.spawn(vec![(I32, Component::I32(7)), (BOOL, Component::Bool(true))]);
    let copy = world.clone_entity(entity).unwrap();
    assert!(copy != entity);
    assert!(world.get_component(copy, I32) == Some(&ComponentValue::Value(Component::I32(7))));
    assert!(world.get_component(copy, BOOL).is_none());
    assert!(world.get_component(entity, BOOL) == Some(&ComponentValue::Value(Component::Bool(true))));
}

#[test]
fn add_world_to_world_adds_clones() {
    let mut cloners = Cloners::new();
    cloners.register_clone_type(I32);
    let mut source: World<Component> = World::new_with_cloners(Cloners::new());
    source.spawn(vec![(I32, Component::I32(1))]);
    source.spawn(vec![(I32, Component::I32(2)), (BOOL, Component::Bool(false))]);
    let mut target: World<Component> = World::new_with_cloners(cloners);
    let existing = target.spawn(vec![(I32, Component::I32(10))]);
    let added = target.add_world_to_world(&source);
    assert!(added.len() == 2);
    assert!(!added.contains(&existing));
    let query = target.query(vec![read(I32)]).unwrap();
    let mut values: Vec<i32> = query.iter(&target).iter().map(|row| as_i32(row[0].unwrap())).collect();
    values.sort();
    assert!(values == vec![1, 2, 10]);
    for e in added {
        assert!(target.get_component(e, BOOL).is_none());
    }
}

#[test]
fn entity_migrator_keeps_seeded_pairs() {
    let mut entities = Entities::new();
    let new_a = entities.new_entity_handle();
    let old_a = Entity { index: 7, generation: 2 };
    let mut migrator = EntityMigrator::new(vec![(old_a, new_a)], entities);
    assert_eq!(migrator.migrate(old_a), new_a);
    let old_b = Entity { index: 3, generation: 0 };
    let new_b = migrator.migrate(old_b);
    assert!(new_b != new_a);
    assert_eq!(migrator.migrate(old_b), new_b);
    assert_eq!(migrator.new_entities(), vec![new_a, new_b]);
}

fn node_of(world: &World<Component>, e: Entity) -> HierarchyNode {
    match world.get_component(e, HIERARCHY_TYPE_ID) {
        Some(ComponentValue::Hierarchy(n)) => *n,
        _ => panic!("no hierarchy node"),
    }
}

#[test]
fn clone_world_remaps_hierarchy_links() {
    let mut source: World<Component> = World::new_with_cloners(Cloners::new());
    let parent = source.spawn(vec![(I32, Component::I32(1))]);
    let child = source.spawn(vec![(I32, Component::I32(2))]);
    set_parent(&mut source, Some(parent), child).unwrap();
    let mut cloners = Cloners::new();
    cloners.register_clone_type(I32);
    cloners.register_clone_type(HIERARCHY_TYPE_ID);
    let mut target: World<Component> = World::new_with_cloners(cloners);
    target.spawn(vec![(BOOL, Component::Bool(true))]);
    target.spawn(vec![(BOOL, Component::Bool(false))]);
    let added = target.add_world_to_world(&source);
    assert_eq!(added.len(), 2);
    let with_parent: Vec<Entity> = added.iter().copied().filter(|e| node_of(&target, *e).parent.is_some()).collect();
    assert_eq!(with_parent.len(), 1);
    let new_child = with_parent[0];
    let new_parent = node_of(&target, new_child).parent.unwrap();
    assert!(added.contains(&new_parent));
    assert!(![parent, child].contains(&new_parent) && ![parent, child].contains(&new_child));
    assert_eq!(node_of(&target, new_parent).last_child, Some(new_child));
    assert!(target.get_component(new_child, I32) == Some(&ComponentValue::Value(Component::I32(2))));
    assert!(target.get_component(new_parent, I32) == Some(&ComponentValue::Value(Component::I32(1))));
}

#[test]
fn spawn_hands_out_next_handle() {
    let mut world: World<Component> = World::new_with_cloners(Cloners::new());
    let a = world.spawn(vec![(I32, Component::I32(1))]);
    assert_eq!(a, Entity { index: 0, generation: 0 });
    let b = world.spawn(vec![(I32, Component::I32(2))]);
    assert_eq!(b, Entity { index: 1, generation: 0 });
    assert_eq!(world.despawn(a), Ok(()));
    let c = world.spawn(vec![(I32, Component::I32(3))]);
    assert_eq!(c, Entity { index: 0, generation: 1 });
    assert!(world.get_component(a, I32).is_none());
    assert!(world.get_component(c, I32) == Some(&ComponentValue::Value(Component::I32(3))));
}

#[test]
fn moving_an_entity_fills_its_row_with_the_last() {
    let mut world: World<Component> = World::new_with_cloners(Cloners::new());
    let a = world.spawn(vec![(I32, Component::I32(1))]);
    let b = world.spawn(vec![(I32, Component::I32(2))]);
    let c = world.spawn(vec![(I32, Component::I32(3))]);
    assert!(world.remove_component(a, I32) == Some(ComponentValue::Value(Component::I32(1))));
    assert_eq!(world.borrow_archetype(0).entities(), &vec![c, b]);
    assert_eq!(world.borrow_archetype(1).entities(), &vec![a]);
    assert_eq!(world.archetype_count(), 2);
    world.add_component(a, I32, Component::I32(4)).unwrap();
    assert_eq!(world.borrow_archetype(0).entities(), &vec![c, b, a]);
    assert_eq!(world.borrow_archetype(1).entities(), &Vec::<Entity>::new());
    assert!(world.get_component(a, I32) == Some(&ComponentValue::Value(Component::I32(4))));
}

#[test]
fn query_visits_each_matching_entity_once_in_spawn_order() {
    let mut world: World<Component> = World::new_with_cloners(Cloners::new());
    let a = world.spawn(vec![(I32, Component::I32(3))]);
    let b = world.spawn(vec![(I32, Component::I32(4))]);
    world.spawn(vec![(BOOL, Component::Bool(true))]);
    let query = world.query(vec![read(I32)]).unwrap();
    assert_eq!(query.entities(&world), vec![a, b]);
}
