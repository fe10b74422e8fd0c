//! End-to-end scenarios driven through the tick loop.

use simrs::Age;
use simrs::Job;
use simrs::Simulation;

/// The advert index and advert list hold exactly the same (job, role) pairs.
fn board_consistent(sim: &Simulation) -> bool {
    if sim.board.ads.len() != sim.board.index.len() {
        return false;
    }
    for ad in sim.board.ads.iter() {
        if !sim.board.index.iter().any(|p| p.0 == ad.job && p.1 == ad.role_index) {
            return false;
        }
    }
    for p in sim.board.index.iter() {
        if !sim.board.ads.iter().any(|ad| ad.job == p.0 && ad.role_index == p.1) {
            return false;
        }
    }
    true
}

fn members_of(sim: &Simulation, job: u64, role: usize) -> Vec<u64> {
    for entry in sim.registry.jobs.iter() {
        if entry.0 == job {
            return entry.1.roles[role].1.clone();
        }
    }
    Vec::new()
}

fn unemployed(sim: &Simulation, id: u64) -> bool {
    sim.roster.agents.iter().any(|a| a.id == id && a.unemployed)
}

#[test]
fn contested_seat_goes_to_first_applicant() {
    // One role, min=1 max=1, ttl 60s. Advert posted at tick 0; two eligible
    // agents apply at t=10 in order [A, B]; A wins the seat, B is skipped.
    let mut sim = Simulation::new(60, 8);
    let job = Job::builder().add_role(1, 1).build();
    sim.add_job(1, job);
    sim.tick(0);
    assert_eq!(sim.advert_count(), 1);
    assert!(board_consistent(&sim));

    sim.spawn_agent(10, Some(Age { years: 30 })); // A
    sim.spawn_agent(11, Some(Age { years: 40 })); // B
    sim.tick(10);
    assert_eq!(members_of(&sim, 1, 0), vec![10]);
    assert!(!unemployed(&sim, 10));
    assert!(unemployed(&sim, 11));

    // The hire's notification is drained next tick: the advert retires.
    sim.tick(11);
    assert_eq!(sim.advert_count(), 0);
    assert_eq!(members_of(&sim, 1, 0), vec![10]);
    assert!(board_consistent(&sim));
}

#[test]
fn unanswered_advert_is_reposted_with_fresh_timestamp() {
    // Advert posted at t=0, no applicants, ttl 60s. At t=61 the sweep
    // retracts it and reconciliation immediately re-posts it dated 61.
    let mut sim = Simulation::new(60, 8);
    let job = Job::builder().add_role(1, 1).build();
    sim.add_job(1, job);
    sim.tick(0);
    assert_eq!(sim.advert_count(), 1);
    assert_eq!(sim.board.ads[0].date_posted, 0);

    sim.tick(30);
    assert_eq!(sim.advert_count(), 1);
    assert_eq!(sim.board.ads[0].date_posted, 0);

    // An advert exactly at the time-to-live is still live.
    sim.tick(60);
    assert_eq!(sim.advert_count(), 1);
    assert_eq!(sim.board.ads[0].date_posted, 0);

    sim.tick(61);
    assert_eq!(sim.advert_count(), 1);
    assert_eq!(sim.board.ads[0].date_posted, 61);
    assert!(board_consistent(&sim));
}

#[test]
fn satisfied_minimum_posts_no_advert() {
    // A role with min=0 max=5 has vacancy 0 from the start: no advert is
    // ever posted even though seats remain below the maximum.
    let mut sim = Simulation::new(60, 8);
    let job = Job::builder().add_role(0, 5).build();
    sim.add_job(1, job);
    sim.tick(0);
    assert_eq!(sim.advert_count(), 0);
    sim.tick(10);
    sim.tick(20);
    assert_eq!(sim.advert_count(), 0);
    assert!(board_consistent(&sim));
}

#[test]
fn batch_cap_limits_hires_per_tick() {
    // min=5 max=5, batch cap 2: five eligible applicants are absorbed two
    // per tick at most.
    let mut sim = Simulation::new(600, 2);
    let job = Job::builder().add_role(5, 5).build();
    sim.add_job(7, job);
    sim.tick(0);
    for id in 1..=5u64 {
        sim.spawn_agent(id, Some(Age { years: 25 }));
    }
    sim.tick(1);
    assert_eq!(members_of(&sim, 7, 0).len(), 2);
    sim.tick(2);
    assert_eq!(members_of(&sim, 7, 0).len(), 4);
    sim.tick(3);
    assert_eq!(members_of(&sim, 7, 0).len(), 5);
    assert_eq!(members_of(&sim, 7, 0), vec![1, 2, 3, 4, 5]);
}

#[test]
fn hiring_never_exceeds_max_seats() {
    // min=1 max=2: three applicants, membership stops at the maximum.
    let mut sim = Simulation::new(600, 8);
    let job = Job::builder().add_role(1, 2).build();
    sim.add_job(3, job);
    sim.tick(0);
    sim.spawn_agent(1, Some(Age { years: 20 }));
    sim.spawn_agent(2, Some(Age { years: 21 }));
    sim.spawn_agent(3, Some(Age { years: 22 }));
    sim.tick(1);
    // Applications are optimistic; capacity is enforced at commit: the
    // minimum is one seat, but room runs to the maximum of two.
    let m = members_of(&sim, 3, 0);
    assert!(m.len() <= 2);
    assert_eq!(m, vec![1, 2]);
    for t in 2..8u64 {
        sim.tick(t);
        assert!(members_of(&sim, 3, 0).len() <= 2);
    }
}

#[test]
fn identical_runs_stay_identical() {
    // Same definitions, same timestamps, same arrival order: every
    // observable state matches between two independent runs.
    let build = || {
        let mut sim = Simulation::new(60, 3);
        sim.add_job(1, Job::builder().add_role(2, 4).age_gte(18).build());
        sim.add_job(2, Job::builder().add_role(1, 1).age_lt(30).build());
        sim
    };
    let mut a = build();
    let mut b = build();
    let script: [(u64, u8); 4] = [(1, 22), (2, 45), (3, 17), (4, 29)];
    for (id, years) in script.iter() {
        a.spawn_agent(*id, Some(Age { years: *years }));
        b.spawn_agent(*id, Some(Age { years: *years }));
    }
    for t in [0u64, 10, 25, 61, 70, 130] {
        a.tick(t);
        b.tick(t);
        assert_eq!(a.board.ads, b.board.ads);
        assert_eq!(a.board.index, b.board.index);
        assert_eq!(a.roster.agents, b.roster.agents);
        for (ea, eb) in a.registry.jobs.iter().zip(b.registry.jobs.iter()) {
            assert_eq!(ea.0, eb.0);
            for (ra, rb) in ea.1.roles.iter().zip(eb.1.roles.iter()) {
                assert_eq!(ra.1, rb.1);
            }
        }
    }
}

#[test]
fn dead_member_is_purged_and_role_reopens() {
    // Death purges the handle from memberships and notifies the job, so
    // the vacancy re-derives and the advert returns next tick.
    let mut sim = Simulation::new(600, 8);
    sim.add_job(1, Job::builder().add_role(1, 1).build());
    sim.tick(0);
    sim.spawn_agent(9, Some(Age { years: 33 }));
    sim.tick(1);
    assert_eq!(members_of(&sim, 1, 0), vec![9]);
    sim.tick(2);
    assert_eq!(sim.advert_count(), 0);

    sim.remove_agent(9);
    assert_eq!(members_of(&sim, 1, 0), Vec::<u64>::new());
    assert_eq!(sim.population(), 0);
    sim.tick(3);
    assert_eq!(sim.advert_count(), 1);
    assert!(board_consistent(&sim));
}

#[test]
fn agents_without_age_fail_closed() {
    // A role constrained on age never accepts an agent whose age is
    // unknown, and an unconstrained role still does.
    let mut sim = Simulation::new(600, 8);
    sim.add_job(1, Job::builder().add_role(1, 1).age_gte(18).build());
    sim.add_job(2, Job::builder().add_role(1, 1).build());
    sim.tick(0);
    sim.spawn_agent(5, None);
    sim.tick(1);
    assert_eq!(members_of(&sim, 1, 0), Vec::<u64>::new());
    assert_eq!(members_of(&sim, 2, 0), vec![5]);
}

#[test]
fn population_and_unemployment_counts_track_events() {
    let mut sim = Simulation::new(600, 8);
    sim.add_job(1, Job::builder().add_role(1, 3).build());
    sim.tick(0);
    sim.spawn_agent(1, Some(Age { years: 20 }));
    sim.spawn_agent(2, Some(Age { years: 30 }));
    assert_eq!(sim.population(), 2);
    assert_eq!(sim.unemployed_count(), 2);
    sim.tick(1);
    // Room runs to the maximum of three seats, so both applicants land.
    assert_eq!(sim.unemployed_count(), 0);
    sim.remove_agent(1);
    assert_eq!(sim.population(), 1);
    assert_eq!(sim.unemployed_count(), 0);
}

#[test]
fn empty_simulation_ticks_quietly() {
    let mut sim = Simulation::new(60, 8);
    sim.tick(0);
    sim.tick(100);
    assert_eq!(sim.advert_count(), 0);
    assert_eq!(sim.population(), 0);
    assert_eq!(sim.unemployed_count(), 0);
    assert!(board_consistent(&sim));
}

#[test]
fn duplicate_job_handle_is_a_no_op() {
    let mut sim = Simulation::new(60, 8);
    assert!(sim.add_job(1, Job::builder().add_role(2, 2).build()));
    assert!(!sim.add_job(1, Job::builder().add_role(9, 9).build()));
    sim.tick(0);
    // only the first definition stands: one role, vacancy two
    assert_eq!(sim.advert_count(), 1);
    assert_eq!(sim.registry.jobs.len(), 1);
    assert_eq!(sim.registry.jobs[0].1.roles[0].0.min, 2);
}
