use voxelia_engine::builder::BuildError;
use voxelia_engine::builder::Builder;
use voxelia_engine::builder::Plugin;
use voxelia_engine::builder::WorldBuilder;
use voxelia_engine::system::Op;
use voxelia_engine::system::System;
use voxelia_engine::world::Entity;

fn quiet_system(writes_resources: Vec<u64>, ops: Vec<Op>) -> System {
    System {
        reads_components: vec![],
        writes_components: vec![],
        reads_resources: vec![],
        writes_resources,
        ops,
    }
}

fn component_system(writes_components: Vec<u64>, ops: Vec<Op>) -> System {
    System {
        reads_components: vec![],
        writes_components,
        reads_resources: vec![],
        writes_resources: vec![],
        ops,
    }
}

#[test]
fn empty_build_succeeds() {
    let engine = Builder::new().build();
    assert!(engine.is_ok());
}

#[test]
fn duplicate_name_fails() {
    let mut wb = WorldBuilder::new();
    wb.with_system(quiet_system(vec![], vec![]), String::from("tick"), vec![]);
    wb.with_system(quiet_system(vec![], vec![]), String::from("tick"), vec![]);
    let r = wb.build();
    assert!(matches!(r, Err(BuildError::DuplicateName { .. })));
    if let Err(BuildError::DuplicateName { name }) = r {
        assert_eq!(name, "tick");
    }
}

#[test]
fn unknown_dependency_fails() {
    let mut wb = WorldBuilder::new();
    wb.with_system(
        quiet_system(vec![], vec![]),
        String::from("late"),
        vec![String::from("missing")],
    );
    let r = wb.build();
    assert!(matches!(r, Err(BuildError::UnknownDependency { .. })));
    if let Err(BuildError::UnknownDependency { system, dependency }) = r {
        assert_eq!(system, "late");
        assert_eq!(dependency, "missing");
    }
}

#[test]
fn dependency_cycle_fails() {
    let mut wb = WorldBuilder::new();
    wb.with_system(
        quiet_system(vec![], vec![]),
        String::from("a"),
        vec![String::from("b")],
    );
    wb.with_system(
        quiet_system(vec![], vec![]),
        String::from("b"),
        vec![String::from("a")],
    );
    assert!(matches!(wb.build(), Err(BuildError::DependencyCycle)));
}

#[test]
fn self_dependency_fails() {
    let mut wb = WorldBuilder::new();
    wb.with_system(
        quiet_system(vec![], vec![]),
        String::from("loop"),
        vec![String::from("loop")],
    );
    assert!(matches!(wb.build(), Err(BuildError::DependencyCycle)));
}

#[test]
fn unregistered_component_fails() {
    let mut wb = WorldBuilder::new();
    wb.with_system(component_system(vec![5], vec![]), String::from("s"), vec![]);
    let r = wb.build();
    assert!(matches!(r, Err(BuildError::UnregisteredComponent { .. })));
    if let Err(BuildError::UnregisteredComponent { system, component }) = r {
        assert_eq!(system, "s");
        assert_eq!(component, 5);
    }
}

#[test]
fn undeclared_write_fails() {
    let mut wb = WorldBuilder::new();
    wb.with_system(
        quiet_system(vec![], vec![Op::SetResource { res: 1, value: 10 }]),
        String::from("sneaky"),
        vec![],
    );
    let r = wb.build();
    assert!(matches!(r, Err(BuildError::UndeclaredWrite { .. })));
}

#[test]
fn dependency_order_is_respected() {
    // "first" sets the counter, "second" adds to it.  If "second" ran
    // before "first", the final value would be 1, not 2.
    let mut wb = WorldBuilder::new();
    wb.with_system(
        quiet_system(vec![0], vec![Op::AddResource { res: 0, delta: 1 }]),
        String::from("second"),
        vec![String::from("first")],
    );
    wb.with_system(
        quiet_system(vec![0], vec![Op::SetResource { res: 0, value: 1 }]),
        String::from("first"),
        vec![],
    );
    let mut engine = wb.build().unwrap();
    engine.run();
    assert_eq!(engine.world.resource(0), Some(2));
}

#[test]
fn dag_of_three_builds_and_orders() {
    // c depends on b, b depends on a; registered in reverse order.
    let mut wb = WorldBuilder::new();
    wb.with_system(
        quiet_system(vec![0], vec![Op::AddResource { res: 0, delta: 7 }]),
        String::from("c"),
        vec![String::from("b")],
    );
    wb.with_system(
        quiet_system(vec![0], vec![Op::AddResource { res: 0, delta: 2 }]),
        String::from("b"),
        vec![String::from("a")],
    );
    wb.with_system(
        quiet_system(vec![0], vec![Op::SetResource { res: 0, value: 1 }]),
        String::from("a"),
        vec![],
    );
    let mut engine = wb.build().unwrap();
    engine.run();
    // a sets 1, b adds 2, c adds 7.
    assert_eq!(engine.world.resource(0), Some(10));
}

struct InsertsResource {
    res: u64,
    value: u64,
}

impl Plugin for InsertsResource {
    fn setup(self, builder: &mut WorldBuilder) {
        builder.with_resource(self.res, self.value);
    }
}

#[test]
fn later_plugin_resource_wins() {
    let engine = Builder::new()
        .with(InsertsResource { res: 7, value: 1 })
        .with(InsertsResource { res: 7, value: 2 })
        .build()
        .unwrap();
    assert_eq!(engine.world.resource(7), Some(2));
}

struct CounterPlugin {
    name: &'static str,
    comp: u64,
    delta: u64,
}

impl Plugin for CounterPlugin {
    fn setup(self, builder: &mut WorldBuilder) {
        builder.with_component(self.comp);
        builder.with_system(
            component_system(
                vec![self.comp],
                vec![Op::AddComponent {
                    comp: self.comp,
                    entity: Entity { index: 0, generation: 0 },
                    delta: self.delta,
                }],
            ),
            String::from(self.name),
            vec![],
        );
    }
}

#[test]
fn independent_systems_same_result_on_repeated_runs() {
    let mut engine = Builder::new()
        .with(CounterPlugin { name: "x", comp: 1, delta: 2 })
        .with(CounterPlugin { name: "y", comp: 2, delta: 3 })
        .build()
        .unwrap();
    let e = engine.world.create_entity();
    for _ in 0..3 {
        engine.run();
    }
    assert_eq!(engine.world.component(1, e), Some(6));
    assert_eq!(engine.world.component(2, e), Some(9));
}

#[test]
fn runs_are_deterministic_across_engines() {
    let build = || {
        Builder::new()
            .with(CounterPlugin { name: "x", comp: 1, delta: 5 })
            .with(InsertsResource { res: 3, value: 100 })
            .build()
            .unwrap()
    };
    let mut a = build();
    let mut b = build();
    let ea = a.world.create_entity();
    let eb = b.world.create_entity();
    for _ in 0..4 {
        a.run();
        b.run();
    }
    assert_eq!(a.world.component(1, ea), b.world.component(1, eb));
    assert_eq!(a.world.component(1, ea), Some(20));
    assert_eq!(a.world.resource(3), b.world.resource(3));
}

#[test]
fn declared_resource_defaults_to_zero() {
    let mut wb = WorldBuilder::new();
    let mut sys = quiet_system(vec![], vec![]);
    sys.reads_resources = vec![9];
    wb.with_system(sys, String::from("reader"), vec![]);
    let engine = wb.build().unwrap();
    assert_eq!(engine.world.resource(9), Some(0));
}

#[test]
fn inserted_resource_is_not_defaulted() {
    let mut wb = WorldBuilder::new();
    let mut sys = quiet_system(vec![], vec![]);
    sys.reads_resources = vec![9];
    wb.with_system(sys, String::from("reader"), vec![]);
    wb.with_resource(9, 42);
    let engine = wb.build().unwrap();
    assert_eq!(engine.world.resource(9), Some(42));
}

#[test]
fn component_registration_is_idempotent() {
    let mut wb = WorldBuilder::new();
    wb.with_component(1);
    wb.with_component(1);
    wb.with_system(component_system(vec![1], vec![]), String::from("s"), vec![]);
    assert!(wb.build().is_ok());
}

#[test]
fn addition_saturates() {
    let mut wb = WorldBuilder::new();
    wb.with_system(
        quiet_system(vec![0], vec![Op::AddResource { res: 0, delta: u64::MAX }]),
        String::from("big"),
        vec![],
    );
    let mut engine = wb.build().unwrap();
    engine.run();
    engine.run();
    assert_eq!(engine.world.resource(0), Some(u64::MAX));
}

#[test]
fn deleted_entity_loses_data_and_never_returns() {
    let mut wb = WorldBuilder::new();
    wb.with_component(1);
    wb.with_system(
        component_system(
            vec![1],
            vec![Op::SetComponent {
                comp: 1,
                entity: Entity { index: 0, generation: 0 },
                value: 5,
            }],
        ),
        String::from("writer"),
        vec![],
    );
    let mut engine = wb.build().unwrap();
    let e = engine.world.create_entity();
    engine.run();
    assert_eq!(engine.world.component(1, e), Some(5));
    engine.world.delete_entity(e);
    assert!(!engine.world.entity_alive(e));
    assert_eq!(engine.world.component(1, e), None);
    let e2 = engine.world.create_entity();
    // The slot is reused at a later generation: the old handle stays dead.
    assert_eq!(e2.index, e.index);
    assert_ne!(e2.generation, e.generation);
    assert!(!engine.world.entity_alive(e));
    assert_eq!(engine.world.component(1, e2), None);
    // The writer's op names generation 0, which no longer exists: the
    // write hits no live entity.
    engine.run();
    assert_eq!(engine.world.component(1, e2), None);
}

#[test]
fn write_to_missing_entity_is_a_no_op() {
    let mut wb = WorldBuilder::new();
    wb.with_component(1);
    wb.with_system(
        component_system(
            vec![1],
            vec![Op::SetComponent {
                comp: 1,
                entity: Entity { index: 3, generation: 0 },
                value: 5,
            }],
        ),
        String::from("writer"),
        vec![],
    );
    let mut engine = wb.build().unwrap();
    engine.run();
    assert_eq!(engine.world.component(1, Entity { index: 3, generation: 0 }), None);
}
