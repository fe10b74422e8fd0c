//! Unit tests for job building, constraints, inventories, rosters, and the
//! edge store.

use simrs::Age;
use simrs::Constraint;
use simrs::Graph;
use simrs::Inventory;
use simrs::Job;
use simrs::Roster;
use simrs::RoleSpec;
use simrs::hiring_manager::constraints_ok;
use simrs::inventory::inv_add;
use simrs::inventory::inv_contains;
use simrs::inventory::inv_list;
use simrs::inventory::inv_move;
use simrs::inventory::inv_remove;
use simrs::jobs::vacancy;

#[test]
fn builder_lays_out_roles_and_constraints() {
    let school = Job::builder()
        .add_role(20, 200)
        .age_lt(18) // students
        .add_role(1, 10)
        .age_gte(18) // teachers
        .build();
    assert_eq!(school.roles.len(), 2);
    assert_eq!(school.roles[0].0.min, 20);
    assert_eq!(school.roles[0].0.max, 200);
    assert!(matches!(school.roles[0].0.constraints[0], Constraint::AgeLessThan(18)));
    assert_eq!(school.roles[1].0.min, 1);
    assert!(matches!(school.roles[1].0.constraints[0], Constraint::AgeAtLeast(18)));
    assert!(school.roles[0].1.is_empty());
}

#[test]
fn vacancy_is_unmet_minimum() {
    let mut job = Job::builder().add_role(3, 10).build();
    assert_eq!(vacancy(&job.roles[0]), 3);
    job.roles[0].1.push(100);
    assert_eq!(vacancy(&job.roles[0]), 2);
    job.roles[0].1.push(101);
    job.roles[0].1.push(102);
    assert_eq!(vacancy(&job.roles[0]), 0);
    // beyond the minimum the vacancy stays zero
    job.roles[0].1.push(103);
    assert_eq!(vacancy(&job.roles[0]), 0);
}

#[test]
fn constraints_are_a_conjunction_and_fail_closed() {
    let rs = RoleSpec {
        min: 1,
        max: 1,
        constraints: vec![Constraint::AgeAtLeast(18), Constraint::AgeLessThan(65)],
    };
    assert!(constraints_ok(&rs, Some(40)));
    assert!(!constraints_ok(&rs, Some(17)));
    assert!(!constraints_ok(&rs, Some(65)));
    assert!(constraints_ok(&rs, Some(18))); // at-least is inclusive
    assert!(constraints_ok(&rs, Some(64))); // less-than is exclusive
    assert!(!constraints_ok(&rs, None)); // absent attribute fails closed
    let free = RoleSpec { min: 1, max: 1, constraints: Vec::new() };
    assert!(constraints_ok(&free, None)); // no constraints: anyone qualifies
}

#[test]
fn inventory_add_remove_move() {
    let mut a = Inventory::new();
    let mut b = Inventory::new();
    inv_add(&mut a, 1);
    inv_add(&mut a, 2);
    inv_add(&mut a, 3);
    inv_add(&mut a, 2); // duplicate add skipped
    assert_eq!(inv_list(&a), vec![1, 2, 3]);
    assert!(inv_contains(&a, 2));
    assert!(!inv_contains(&a, 9));

    // swap-removal: the last item takes the removed slot
    assert!(inv_remove(&mut a, 1));
    assert_eq!(inv_list(&a), vec![3, 2]);
    assert!(!inv_remove(&mut a, 1));

    inv_move(&mut a, &mut b, 2);
    assert_eq!(inv_list(&a), vec![3]);
    assert_eq!(inv_list(&b), vec![2]);
    inv_move(&mut a, &mut b, 2); // not in source, already in destination
    assert_eq!(inv_list(&a), vec![3]);
    assert_eq!(inv_list(&b), vec![2]);
}

#[test]
fn graph_set_get_remove() {
    let mut g: Graph<u32> = Graph::default();
    g.set(1, 10);
    g.set(2, 20);
    g.set(1, 11); // overwrite keeps one edge per target
    assert_eq!(g.edges.len(), 2);
    assert_eq!(g.get(&1), Some(&11));
    assert_eq!(g.get(&2), Some(&20));
    assert_eq!(g.get(&3), None);
    assert_eq!(g.remove(&1), Some(11));
    assert_eq!(g.remove(&1), None);
    assert_eq!(g.get(&1), None);
}

#[test]
fn graph_mutable_access_and_ensure() {
    let mut g: Graph<u32> = Graph::default();
    g.set(1, 10);
    if let Some(v) = g.get_mut(&1) {
        *v = 99;
    }
    assert_eq!(g.get(&1), Some(&99));
    assert!(g.get_mut(&3).is_none());

    let v = g.ensure_with(5, || 7);
    assert_eq!(*v, 7);
    *v += 1;
    assert_eq!(g.get(&5), Some(&8));
    let kept = g.ensure_with(5, || 100); // existing edge: initializer unused
    assert_eq!(*kept, 8);
}

#[test]
fn roster_spawn_clear_remove() {
    let mut r = Roster::new();
    assert!(r.spawn(1, Some(Age { years: 5 })));
    assert!(r.spawn(2, None));
    assert!(!r.spawn(1, None)); // handle already in use
    assert_eq!(r.population(), 2);
    assert_eq!(r.unemployed_count(), 2);
    r.clear_unemployed(1);
    assert_eq!(r.unemployed_count(), 1);
    assert!(r.contains(2));
    r.remove(2);
    assert!(!r.contains(2));
    assert_eq!(r.population(), 1);
}
