use kecs::AccessMode;
use kecs::ComponentId;
use kecs::GraphScheduler;
use kecs::SparseSet;
use kecs::add_dependencies;

const COMPONENT_1: usize = 0;
const COMPONENT_2: usize = 1;

fn deps(entries: &[(usize, AccessMode)]) -> SparseSet<ComponentId, AccessMode> {
    let mut set = SparseSet::new();
    for (component, mode) in entries {
        set.insert(ComponentId::from_usize(*component), *mode);
    }
    set
}

fn write_component_1() -> SparseSet<ComponentId, AccessMode> {
    deps(&[(COMPONENT_1, AccessMode::Write)])
}

fn write_component_2() -> SparseSet<ComponentId, AccessMode> {
    deps(&[(COMPONENT_2, AccessMode::Write)])
}

fn read_component_1() -> SparseSet<ComponentId, AccessMode> {
    deps(&[(COMPONENT_1, AccessMode::Read)])
}

/// The dependency map of a system with one query reading a component and a
/// second query writing the same component: the write wins in the merge.
fn read_write_component_1() -> SparseSet<ComponentId, AccessMode> {
    let mut merged = deps(&[(COMPONENT_1, AccessMode::Read)]);
    let write = deps(&[(COMPONENT_1, AccessMode::Write)]);
    add_dependencies(&write, &mut merged);
    merged
}

#[test]
fn empty_schedule() {
    let scheduler = GraphScheduler::new();

    let schedule = scheduler.compute_schedule();
    assert!(schedule.groups.is_empty());
}

#[test]
fn write_then_read() {
    let mut scheduler = GraphScheduler::new();

    let system_0 = scheduler.add_system(write_component_1(), false);
    let system_1 = scheduler.add_system(write_component_2(), false);

    let schedule = scheduler.compute_schedule();
    assert_eq!(schedule.groups.len(), 1);
    assert!(schedule.groups[0].jobs.contains(&system_0));
    assert!(schedule.groups[0].jobs.contains(&system_1));
}

#[test]
fn disjoint_systems() {
    let mut scheduler = GraphScheduler::new();

    let system_0 = scheduler.add_system(write_component_1(), false);
    let system_1 = scheduler.add_system(read_component_1(), false);

    println!("{}", scheduler.dump_graph());

    let schedule = scheduler.compute_schedule();
    assert_eq!(schedule.groups.len(), 2);
    assert!(schedule.groups[0].jobs.contains(&system_0));
    assert!(schedule.groups[1].jobs.contains(&system_1));
}

#[test]
fn parallel_read() {
    let mut scheduler = GraphScheduler::new();

    let system_0 = scheduler.add_system(read_component_1(), false);
    let system_1 = scheduler.add_system(read_component_1(), false);

    let schedule = scheduler.compute_schedule();
    assert_eq!(schedule.groups.len(), 1);
    assert!(schedule.groups[0].jobs.contains(&system_0));
    assert!(schedule.groups[0].jobs.contains(&system_1));
}

#[test]
fn parallel_write() {
    let mut scheduler = GraphScheduler::new();

    let system_0 = scheduler.add_system(write_component_1(), false);
    let system_1 = scheduler.add_system(write_component_1(), false);

    let schedule = scheduler.compute_schedule();
    assert_eq!(schedule.groups.len(), 2);
    assert!(schedule.groups[0].jobs.contains(&system_0));
    assert!(schedule.groups[1].jobs.contains(&system_1));
}

#[test]
fn read_then_write() {
    let mut scheduler = GraphScheduler::new();

    let system_0 = scheduler.add_system(read_component_1(), false);
    let system_1 = scheduler.add_system(write_component_1(), false);

    let schedule = scheduler.compute_schedule();
    assert_eq!(schedule.groups.len(), 2);
    assert!(schedule.groups[0].jobs.contains(&system_0));
    assert!(schedule.groups[1].jobs.contains(&system_1));
}

#[test]
fn read_then_write_same_query() {
    let mut scheduler = GraphScheduler::new();

    let system_0 = scheduler.add_system(read_component_1(), false);

    // Since this system writes the component in one of its queries, the
    // third system must wait for it.
    let system_1 = scheduler.add_system(read_write_component_1(), false);

    let system_2 = scheduler.add_system(read_component_1(), false);

    let schedule = scheduler.compute_schedule();

    println!("{}", scheduler.dump_graph());
    assert_eq!(schedule.groups.len(), 3);

    assert!(schedule.groups[0].jobs.contains(&system_0));
    assert!(schedule.groups[1].jobs.contains(&system_1));
    assert!(schedule.groups[2].jobs.contains(&system_2));
}

#[test]
fn non_parallel_world() {
    let mut scheduler = GraphScheduler::new();

    let system_0 = scheduler.add_system(read_component_1(), false);

    // A system that takes the whole world is exclusive: it cannot be run
    // in parallel in any case.
    let system_1 = scheduler.add_system(SparseSet::new(), true);

    let schedule = scheduler.compute_schedule();

    println!("{}", scheduler.dump_graph());
    assert_eq!(schedule.groups.len(), 2);

    assert!(schedule.groups[0].jobs.contains(&system_0));
    assert!(schedule.groups[1].jobs.contains(&system_1));
}

/// Systems A, B, C read from the same component but write to different
/// components, then F takes the whole world, finally D takes the world
/// again, E uses A's output and F2 writes B's output while reading C's.
/// The schedule must be (A, B, C), (F), (D), (E, F2).
#[test]
fn multi_nodes() {
    const SHARED_BY_ABC: usize = 10;
    const WRITTEN_BY_A: usize = 11;
    const WRITTEN_BY_B: usize = 12;
    const WRITTEN_BY_C: usize = 13;

    let mut scheduler = GraphScheduler::new();

    let sys_a_id = scheduler.add_system(
        deps(&[(SHARED_BY_ABC, AccessMode::Read), (WRITTEN_BY_A, AccessMode::Write)]),
        false,
    );
    let sys_b_id = scheduler.add_system(
        deps(&[(SHARED_BY_ABC, AccessMode::Read), (WRITTEN_BY_B, AccessMode::Write)]),
        false,
    );
    let sys_c_id = scheduler.add_system(
        deps(&[(SHARED_BY_ABC, AccessMode::Read), (WRITTEN_BY_C, AccessMode::Write)]),
        false,
    );
    let sys_excl_id = scheduler.add_system(SparseSet::new(), true);
    let sys_d_id = scheduler.add_system(SparseSet::new(), true);
    let sys_e_id = scheduler.add_system(deps(&[(WRITTEN_BY_A, AccessMode::Read)]), false);
    let sys_f_id = scheduler.add_system(
        deps(&[(WRITTEN_BY_B, AccessMode::Write), (WRITTEN_BY_C, AccessMode::Read)]),
        false,
    );

    let schedule = scheduler.compute_schedule();

    println!("{}", scheduler.dump_graph());
    assert_eq!(schedule.groups.len(), 4);

    assert!(schedule.groups[0].jobs.contains(&sys_a_id));
    assert!(schedule.groups[0].jobs.contains(&sys_b_id));
    assert!(schedule.groups[0].jobs.contains(&sys_c_id));
    assert!(schedule.groups[1].jobs.contains(&sys_excl_id));
    assert!(schedule.groups[2].jobs.contains(&sys_d_id));
    assert!(schedule.groups[3].jobs.contains(&sys_e_id));
    assert!(schedule.groups[3].jobs.contains(&sys_f_id));
}

#[test]
fn game() {
    const ENTITY_NAME: usize = 20;
    const BULLET: usize = 21;
    const PLAYER: usize = 22;
    const TRANSFORM: usize = 23;

    let mut scheduler = GraphScheduler::new();

    // One system moves every bullet's transform along its direction.
    let update = scheduler.add_system(
        deps(&[(BULLET, AccessMode::Read), (TRANSFORM, AccessMode::Write)]),
        false,
    );
    // One system prints the transform of every named player.
    let print_1 = scheduler.add_system(
        deps(&[
            (PLAYER, AccessMode::Read),
            (ENTITY_NAME, AccessMode::Read),
            (TRANSFORM, AccessMode::Read),
        ]),
        false,
    );
    // One system prints the transform of every named entity.
    let print_2 = scheduler.add_system(
        deps(&[(ENTITY_NAME, AccessMode::Read), (TRANSFORM, AccessMode::Read)]),
        false,
    );
    println!("{}", scheduler.dump_graph());

    let schedule = scheduler.compute_schedule();

    assert!(schedule.groups.len() == 2);
    assert!(schedule.groups[0].jobs.contains(&update));
    assert!(schedule.groups[1].jobs.contains(&print_1));
    assert!(schedule.groups[1].jobs.contains(&print_2));
}

#[test]
fn write_read_write() {
    const TEST_COMPONENT_A: usize = 30;

    let mut scheduler = GraphScheduler::new();

    let sys_1 = scheduler.add_system(deps(&[(TEST_COMPONENT_A, AccessMode::Write)]), false);
    let sys_2 = scheduler.add_system(deps(&[(TEST_COMPONENT_A, AccessMode::Read)]), false);
    let sys_3 = scheduler.add_system(deps(&[(TEST_COMPONENT_A, AccessMode::Read)]), false);
    let sys_4 = scheduler.add_system(deps(&[(TEST_COMPONENT_A, AccessMode::Write)]), false);
    let sys_5 = scheduler.add_system(deps(&[(TEST_COMPONENT_A, AccessMode::Write)]), false);

    let schedule = scheduler.compute_schedule();

    println!("{}", scheduler.dump_graph());

    assert!(schedule.groups.len() == 4);
    assert!(schedule.groups[0].jobs.len() == 1 && schedule.groups[0].jobs.contains(&sys_1));
    assert!(schedule.groups[1].jobs.len() == 2 && schedule.groups[1].jobs.contains(&sys_2));
    assert!(schedule.groups[1].jobs.len() == 2 && schedule.groups[1].jobs.contains(&sys_3));
    assert!(schedule.groups[2].jobs.len() == 1 && schedule.groups[2].jobs.contains(&sys_4));
    assert!(schedule.groups[3].jobs.len() == 1 && schedule.groups[3].jobs.contains(&sys_5));
}

#[test]
fn dump_graph_names_the_edges() {
    let mut scheduler = GraphScheduler::new();
    let a = scheduler.add_system(write_component_1(), false);
    let b = scheduler.add_system(read_component_1(), false);
    let dot = scheduler.dump_graph();
    assert!(dot.contains("digraph"));
    assert!(dot.contains(&format!("{} -> {}", a, b)));
}

#[test]
fn late_reader_is_recorded_for_the_next_writer() {
    const X: usize = 40;
    const Z: usize = 41;

    let mut scheduler = GraphScheduler::new();

    // the first reader of x, then an unrelated writer, then a second
    // reader of x that also depends on that writer
    let first_reader = scheduler.add_system(deps(&[(X, AccessMode::Read)]), false);
    let z_writer = scheduler.add_system(deps(&[(Z, AccessMode::Write)]), false);
    let late_reader = scheduler.add_system(
        deps(&[(X, AccessMode::Read), (Z, AccessMode::Read)]),
        false,
    );
    // the writer of x must wait for both readers, including the late one
    let x_writer = scheduler.add_system(deps(&[(X, AccessMode::Write)]), false);

    let schedule = scheduler.compute_schedule();
    assert_eq!(schedule.groups.len(), 3);
    assert!(schedule.groups[0].jobs.contains(&first_reader));
    assert!(schedule.groups[0].jobs.contains(&z_writer));
    assert!(schedule.groups[1].jobs.contains(&late_reader));
    assert!(schedule.groups[2].jobs.contains(&x_writer));
}

#[test]
fn fresh_system_after_a_barrier_waits_for_it() {
    let mut scheduler = GraphScheduler::new();

    let barrier = scheduler.add_system(SparseSet::new(), true);
    // a system whose components were never seen still runs after the
    // barrier
    let fresh = scheduler.add_system(write_component_1(), false);

    let schedule = scheduler.compute_schedule();
    assert_eq!(schedule.groups.len(), 2);
    assert!(schedule.groups[0].jobs.contains(&barrier));
    assert!(schedule.groups[1].jobs.contains(&fresh));
    assert_eq!(schedule.groups[0].jobs.len(), 1);
}
