//! Unit tests for the vacancy board, reconciliation, and the expiry sweep.

use simrs::Advert;
use simrs::Gregslist;
use simrs::GregslistConfig;
use simrs::Job;
use simrs::JobRegistry;
use simrs::VacancyDirty;
use simrs::gregslist::gregslist_expiration_system;
use simrs::hiring_manager::post_job_openings;

fn consistent(board: &Gregslist) -> bool {
    board.ads.len() == board.index.len()
        && board.ads.iter().all(|ad| {
            board.index.iter().any(|p| p.0 == ad.job && p.1 == ad.role_index)
        })
        && board.index.iter().all(|p| {
            board.ads.iter().any(|ad| ad.job == p.0 && ad.role_index == p.1)
        })
}

#[test]
fn post_is_idempotent() {
    let mut board = Gregslist::new();
    assert!(board.post(1, 0, 5));
    assert!(!board.post(1, 0, 9)); // duplicate suppressed by the index
    assert_eq!(board.ads.len(), 1);
    assert_eq!(board.ads[0].date_posted, 5);
    assert!(consistent(&board));
}

#[test]
fn retract_removes_list_and_index_entries() {
    let mut board = Gregslist::new();
    board.post(1, 0, 0);
    board.post(1, 1, 0);
    board.post(2, 0, 0);
    assert!(board.retract(1, 0));
    assert!(!board.retract(1, 0)); // already gone
    assert_eq!(board.ads.len(), 2);
    assert!(board.contains_key(1, 1));
    assert!(board.contains_key(2, 0));
    assert!(!board.contains_key(1, 0));
    assert!(consistent(&board));
}

#[test]
fn expiry_keeps_adverts_at_exactly_the_ttl() {
    let mut board = Gregslist::new();
    board.post(1, 0, 0);
    board.post(2, 0, 40);
    let cfg = GregslistConfig { expiry_secs: 60 };
    let mut dirty: Vec<VacancyDirty> = Vec::new();

    // age 60 == ttl 60: kept; nothing notified
    gregslist_expiration_system(&mut board, &cfg, 60, &mut dirty);
    assert_eq!(board.ads.len(), 2);
    assert!(dirty.is_empty());

    // age 61 > ttl for the first advert only
    gregslist_expiration_system(&mut board, &cfg, 61, &mut dirty);
    assert_eq!(board.ads.len(), 1);
    assert_eq!(board.ads[0].job, 2);
    assert_eq!(dirty.len(), 1);
    assert_eq!(dirty[0].job, 1);
    assert!(consistent(&board));
}

#[test]
fn reconcile_posts_and_retracts_by_vacancy() {
    let mut registry = JobRegistry::new();
    // role 0 vacant (min 2), role 1 satisfied (min 0)
    registry.add_job(4, Job::builder().add_role(2, 3).add_role(0, 5).build());
    let mut board = Gregslist::new();
    let events = vec![VacancyDirty { job: 4 }, VacancyDirty { job: 99 }];
    post_job_openings(&mut board, &registry, &events, 7);
    assert_eq!(board.ads.len(), 1);
    assert_eq!(
        (board.ads[0].job, board.ads[0].role_index, board.ads[0].date_posted),
        (4, 0, 7),
    );
    assert!(consistent(&board));
}

#[test]
fn reconcile_twice_changes_nothing_the_second_time() {
    let mut registry = JobRegistry::new();
    registry.add_job(1, Job::builder().add_role(1, 1).add_role(0, 2).build());
    registry.add_job(2, Job::builder().add_role(3, 3).build());
    let mut board = Gregslist::new();
    board.post(9, 4, 0); // an unrelated advert survives untouched
    let events = vec![VacancyDirty { job: 1 }, VacancyDirty { job: 2 }];
    post_job_openings(&mut board, &registry, &events, 10);
    let ads_once: Vec<Advert> = board.ads.clone();
    let index_once = board.index.clone();
    // a second pass, even at a later timestamp, is a no-op
    post_job_openings(&mut board, &registry, &events, 25);
    assert_eq!(board.ads, ads_once);
    assert_eq!(board.index, index_once);
}

#[test]
fn duplicate_notifications_in_one_drain_are_harmless() {
    let mut registry = JobRegistry::new();
    registry.add_job(1, Job::builder().add_role(2, 2).build());
    let mut board = Gregslist::new();
    let events = vec![
        VacancyDirty { job: 1 },
        VacancyDirty { job: 1 },
        VacancyDirty { job: 1 },
    ];
    post_job_openings(&mut board, &registry, &events, 3);
    assert_eq!(board.ads.len(), 1);
    assert!(consistent(&board));
}
