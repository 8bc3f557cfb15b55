use psim::particle::Particle;
use psim::psim::PSim;
use psim::schedule::Action;

#[test]
fn new_world_is_empty() {
    let world: PSim<u8, u8> = PSim::new();
    assert!(world.get_particles().is_empty());
    assert!(world.get_force_fields().is_empty());
    assert!(world.particle_ids().is_empty());
    assert!(world.plan_step().is_empty());
}

#[test]
fn free_candidate_is_taken_as_it_is() {
    let mut world: PSim<u8, u8> = PSim::new();
    assert_eq!(world.add_particle_with_handle(17, Particle::new(1)), 17);
    assert_eq!(world.add_particle_with_handle(3, Particle::new(2)), 3);
    assert_eq!(*world.get_particles()[&17].body(), 1);
    assert_eq!(*world.get_particles()[&3].body(), 2);
    assert_eq!(world.get_particles().len(), 2);
}

#[test]
fn taken_candidate_moves_to_the_next_free_handle() {
    let mut world: PSim<u8, u8> = PSim::new();
    assert_eq!(world.add_particle_with_handle(5, Particle::new(1)), 5);
    assert_eq!(world.add_particle_with_handle(6, Particle::new(2)), 6);
    assert_eq!(world.add_particle_with_handle(8, Particle::new(3)), 8);
    assert_eq!(world.add_particle_with_handle(5, Particle::new(4)), 7);
    assert_eq!(world.add_particle_with_handle(5, Particle::new(5)), 9);
    assert_eq!(*world.get_particles()[&5].body(), 1);
    assert_eq!(*world.get_particles()[&7].body(), 4);
    assert_eq!(*world.get_particles()[&9].body(), 5);
    assert_eq!(world.get_particles().len(), 5);
}

#[test]
fn handles_wrap_round_the_range() {
    let mut world: PSim<u8, u8> = PSim::new();
    assert_eq!(world.add_particle_with_handle(u64::MAX, Particle::new(1)), u64::MAX);
    assert_eq!(world.add_particle_with_handle(0, Particle::new(2)), 0);
    assert_eq!(world.add_particle_with_handle(u64::MAX, Particle::new(3)), 1);
    assert_eq!(*world.get_particles()[&u64::MAX].body(), 1);
    assert_eq!(*world.get_particles()[&1].body(), 3);
}

#[test]
fn drawn_handles_are_fresh() {
    let mut world: PSim<usize, u8> = PSim::new();
    let mut handles: Vec<u64> = vec![];
    for k in 0..200usize {
        let id = world.add_particle(Particle::new(k));
        assert!(!handles.contains(&id));
        handles.push(id);
        assert_eq!(world.get_particles().len(), k + 1);
    }
    for (k, id) in handles.iter().enumerate() {
        assert_eq!(*world.get_particles()[id].body(), k);
    }
}

#[test]
fn fields_keep_their_order() {
    let mut world: PSim<u8, &str> = PSim::new();
    world.add_force_field("wind");
    world.add_force_field("well");
    world.add_force_field("wind");
    assert_eq!(*world.get_force_fields(), vec!["wind", "well", "wind"]);
    assert!(world.get_particles().is_empty());
}

#[test]
fn roster_lists_each_handle_once() {
    let mut world: PSim<u8, u8> = PSim::new();
    for id in [40u64, 2, 77, 13] {
        world.add_particle_with_handle(id, Particle::new(0));
    }
    let mut ids = world.particle_ids();
    ids.sort();
    assert_eq!(ids, vec![2, 13, 40, 77]);
}

#[test]
fn pair_access_reaches_both_particles() {
    let mut world: PSim<i32, u8> = PSim::new();
    world.add_particle_with_handle(1, Particle::new(10));
    world.add_particle_with_handle(2, Particle::new(20));
    world.add_particle_with_handle(3, Particle::new_static(30));
    match world.get_pair_mut(2, 1) {
        Some((first, second)) => {
            assert_eq!(*first.body(), 20);
            assert_eq!(*second.body(), 10);
            *first.body_mut().unwrap() += 1;
            *second.body_mut().unwrap() -= 1;
        }
        None => panic!("both handles are known and differ"),
    }
    assert_eq!(*world.get_particles()[&1].body(), 9);
    assert_eq!(*world.get_particles()[&2].body(), 21);
    assert_eq!(*world.get_particles()[&3].body(), 30);
    assert_eq!(world.get_particles().len(), 3);
}

#[test]
fn pair_access_refuses_one_particle_twice() {
    let mut world: PSim<i32, u8> = PSim::new();
    world.add_particle_with_handle(1, Particle::new(10));
    assert!(world.get_pair_mut(1, 1).is_none());
    assert_eq!(*world.get_particles()[&1].body(), 10);
}

#[test]
fn pair_access_refuses_unknown_handles() {
    let mut world: PSim<i32, u8> = PSim::new();
    world.add_particle_with_handle(1, Particle::new(10));
    world.add_particle_with_handle(2, Particle::new(20));
    assert!(world.get_pair_mut(1, 3).is_none());
    assert!(world.get_pair_mut(3, 2).is_none());
    assert!(world.get_pair_mut(4, 5).is_none());
    assert_eq!(world.get_particles().len(), 2);
}

#[test]
fn step_plan_of_a_world() {
    let mut world: PSim<u8, u8> = PSim::new();
    for id in [5u64, 6, 7, 8] {
        world.add_particle_with_handle(id, Particle::new(0));
    }
    world.add_force_field(0);
    world.add_force_field(1);
    let plan = world.plan_step();
    assert_eq!(plan.len(), 4 * 2 + 6 + 4);
    let forces = world.plan_forces();
    assert_eq!(forces.len(), 4 * 2 + 6);
    for (k, action) in plan.iter().enumerate() {
        match action {
            Action::Gather { particle, field } => {
                assert!(k < 8);
                assert!(world.get_particles().contains_key(particle));
                assert_eq!(*field, k % 2);
            }
            Action::Interact { first, second } => {
                assert!((8..14).contains(&k));
                assert_ne!(first, second);
                for later in plan.iter().skip(k + 1) {
                    assert_ne!(*later, Action::Interact { first: *first, second: *second });
                    assert_ne!(*later, Action::Interact { first: *second, second: *first });
                }
            }
            Action::Integrate { particle } => {
                assert!(k >= 14);
                for later in plan.iter().skip(k + 1) {
                    assert_ne!(*later, Action::Integrate { particle: *particle });
                }
            }
        }
    }
}
