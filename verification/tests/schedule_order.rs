use psim::schedule::{pair_schedule, plan_forces, plan_step, Action};

#[test]
fn pairs_of_three() {
    let pairs = pair_schedule(&vec![7, 3, 9]);
    assert_eq!(pairs, vec![(7, 3), (7, 9), (3, 9)]);
}

#[test]
fn pairs_of_none_and_one() {
    assert_eq!(pair_schedule(&vec![]), vec![]);
    assert_eq!(pair_schedule(&vec![5]), vec![]);
}

#[test]
fn pairs_of_two() {
    assert_eq!(pair_schedule(&vec![u64::MAX, 0]), vec![(u64::MAX, 0)]);
}

#[test]
fn pairs_of_four_in_row_order() {
    let pairs = pair_schedule(&vec![1, 2, 3, 4]);
    assert_eq!(pairs, vec![(1, 2), (1, 3), (1, 4), (2, 3), (2, 4), (3, 4)]);
}

#[test]
fn every_unordered_pair_once() {
    let ids: Vec<u64> = vec![11, 5, 8, 2, 99, 41, 7];
    let pairs = pair_schedule(&ids);
    assert_eq!(pairs.len(), ids.len() * (ids.len() - 1) / 2);
    for (p, first) in pairs.iter().enumerate() {
        assert_ne!(first.0, first.1);
        for second in pairs.iter().skip(p + 1) {
            assert_ne!(first, second);
            assert_ne!(*first, (second.1, second.0));
        }
    }
    for i in 0..ids.len() {
        for j in (i + 1)..ids.len() {
            assert!(pairs.contains(&(ids[i], ids[j])));
        }
    }
}

#[test]
fn force_plan_of_two_bodies_and_two_fields() {
    let plan = plan_forces(&vec![10, 20], 2);
    assert_eq!(
        plan,
        vec![
            Action::Gather { particle: 10, field: 0 },
            Action::Gather { particle: 10, field: 1 },
            Action::Gather { particle: 20, field: 0 },
            Action::Gather { particle: 20, field: 1 },
            Action::Interact { first: 10, second: 20 },
        ]
    );
}

#[test]
fn force_plan_without_fields_is_the_pairwise_pass() {
    let plan = plan_forces(&vec![1, 2, 3], 0);
    assert_eq!(
        plan,
        vec![
            Action::Interact { first: 1, second: 2 },
            Action::Interact { first: 1, second: 3 },
            Action::Interact { first: 2, second: 3 },
        ]
    );
}

#[test]
fn step_plan_integrates_last() {
    let plan = plan_step(&vec![10, 20, 30], 1);
    assert_eq!(
        plan,
        vec![
            Action::Gather { particle: 10, field: 0 },
            Action::Gather { particle: 20, field: 0 },
            Action::Gather { particle: 30, field: 0 },
            Action::Interact { first: 10, second: 20 },
            Action::Interact { first: 10, second: 30 },
            Action::Interact { first: 20, second: 30 },
            Action::Integrate { particle: 10 },
            Action::Integrate { particle: 20 },
            Action::Integrate { particle: 30 },
        ]
    );
}

#[test]
fn step_plan_of_an_empty_world_is_empty() {
    assert_eq!(plan_step(&vec![], 4), vec![]);
}

#[test]
fn step_plan_of_one_body() {
    assert_eq!(
        plan_step(&vec![6], 1),
        vec![Action::Gather { particle: 6, field: 0 }, Action::Integrate { particle: 6 }]
    );
}
