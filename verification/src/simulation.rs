//! The tick driver: owns the registry, the board, the roster, and the
//! queues, and runs every tick's stages to completion in a fixed order —
//! expire stale adverts, reconcile the board on the accumulated
//! notifications, collect applications, resolve hires.

use vstd::prelude::*;

use crate::agents::Age;
use crate::agents::Agent;
use crate::agents::Roster;
use crate::agents::agent_id_fn;
use crate::agents::count_unemployed;
use crate::agents::roster_has;
use crate::agents::roster_wf;
use crate::gregslist::BoardModel;
use crate::gregslist::Gregslist;
use crate::gregslist::GregslistConfig;
use crate::gregslist::VacancyDirty;
use crate::gregslist::board_wf;
use crate::gregslist::expire_board;
use crate::gregslist::expire_dirty;
use crate::gregslist::gregslist_expiration_system;
use crate::gregslist::lemma_expire_board_wf;
use crate::gregslist::posted_by;
use crate::hiring_manager::ApplicationInbox;
use crate::hiring_manager::HireState;
use crate::hiring_manager::HiringConfig;
use crate::hiring_manager::Resume;
use crate::hiring_manager::all_applications;
use crate::hiring_manager::apply_for_jobs;
use crate::hiring_manager::evaluate_and_assign;
use crate::hiring_manager::hire_inv;
use crate::hiring_manager::hire_resolve;
use crate::hiring_manager::lemma_hire_prefix_inv;
use crate::hiring_manager::lemma_hiring_respects_batch_cap;
use crate::hiring_manager::lemma_reconcile_events_vacancy_iff;
use crate::hiring_manager::lemma_reconcile_events_prefix_wf;
use crate::hiring_manager::post_job_openings;
use crate::hiring_manager::reconcile_events;
use crate::jobs::Job;
use crate::jobs::JobRegistry;
use crate::jobs::RegModel;
use crate::jobs::job_view;
use crate::jobs::reg_at;
use crate::jobs::reg_cap_ok;
use crate::jobs::reg_has;
use crate::jobs::reg_key_fn;
use crate::jobs::reg_roles;
use crate::jobs::reg_wf;
use crate::jobs::roles_cap_ok;
use crate::jobs::spec_vacancy;
use crate::jobs::RoleModel;
use crate::jobs::lemma_reg_purged_facts;
use crate::jobs::mentions_pred;
use crate::jobs::reg_purged;
use crate::agents::roster_without;
use crate::seq_util::seq_keep;

verus! {

/// The whole simulation core, owned by the tick driver.
pub struct Simulation {
    pub registry: JobRegistry,
    pub board: Gregslist,
    pub roster: Roster,
    pub inbox: ApplicationInbox,
    pub dirty: Vec<VacancyDirty>,
    pub board_cfg: GregslistConfig,
    pub hiring_cfg: HiringConfig,
    pub time: u64,
}

/// Mathematical model of the whole core.
pub struct SimModel {
    pub reg: RegModel,
    pub board: BoardModel,
    pub roster: Seq<Agent>,
    pub inbox: Seq<Resume>,
    pub dirty: Seq<VacancyDirty>,
    pub expiry_secs: u64,
    pub batch_cap: u32,
    pub time: u64,
}

impl View for Simulation {
    type V = SimModel;

    open spec fn view(&self) -> SimModel {
        SimModel {
            reg: self.registry@,
            board: self.board@,
            roster: self.roster@,
            inbox: self.inbox@,
            dirty: self.dirty@,
            expiry_secs: self.board_cfg.expiry_secs,
            batch_cap: self.hiring_cfg.max_hires_per_role_per_cycle,
            time: self.time,
        }
    }
}

/// The core's standing invariant, re-established after every operation:
/// the board's index and list agree, handles are unique, every role sits
/// within its maximum seats, no advert is dated after the current time,
/// and the resume queue is empty between ticks.
pub open spec fn sim_wf(m: SimModel) -> bool {
    &&& board_wf(m.board)
    &&& reg_wf(m.reg)
    &&& reg_cap_ok(m.reg)
    &&& roster_wf(m.roster)
    &&& posted_by(m.board.ads, m.time)
    &&& m.inbox == Seq::<Resume>::empty()
    &&& forall|k: int| 0 <= k < m.reg.len() ==> (#[trigger] m.reg[k]).1.len() <= usize::MAX
}

/// One tick at time `now`: expire, reconcile on the accumulated
/// notifications (last tick's hires plus this tick's expiries), collect
/// applications against the reconciled board, then resolve hires; the
/// notifications the resolver raises wait for the next tick.
pub open spec fn spec_tick(m: SimModel, now: u64) -> SimModel {
    let b1 = expire_board(m.board, now, m.expiry_secs);
    let dirty1 = m.dirty + expire_dirty(m.board.ads, now, m.expiry_secs);
    let b2 = reconcile_events(b1, m.reg, dirty1, now);
    let resumes = m.inbox + all_applications(m.roster, b2.ads, m.reg);
    let start = HireState {
        reg: m.reg,
        roster: m.roster,
        dirty: Seq::empty(),
        hired: Map::empty(),
    };
    let end = hire_resolve(start, resumes, m.batch_cap);
    SimModel {
        reg: end.reg,
        board: b2,
        roster: end.roster,
        inbox: Seq::empty(),
        dirty: end.dirty,
        expiry_secs: m.expiry_secs,
        batch_cap: m.batch_cap,
        time: now,
    }
}

/// Determinism law: the tick is a function of the state and the timestamp
/// alone, so two runs from identical states with identical timestamps
/// produce identical registries, rosters, and boards. Together with
/// `Simulation::tick`'s contract this pins every run's observable state.
pub proof fn lemma_tick_deterministic(m1: SimModel, m2: SimModel, now: u64)
    requires
        m1 == m2,
    ensures
        spec_tick(m1, now) == spec_tick(m2, now),
{
}

/// Bridge from the per-entry role-count bound to the lookup form the board
/// lemmas take.
proof fn lemma_roles_len_bound(reg: RegModel)
    requires
        forall|k: int| 0 <= k < reg.len() ==> (#[trigger] reg[k]).1.len() <= usize::MAX,
    ensures
        forall|jid: u64| reg_has(reg, jid) ==> #[trigger] reg_roles(reg, jid).len() <= usize::MAX,
{
    assert forall|jid: u64| reg_has(reg, jid) implies #[trigger] reg_roles(reg, jid).len()
        <= usize::MAX by {
        let t = reg_at(reg, jid);
        assert(0 <= t < reg.len() && reg[t].0 == jid);
        assert(reg[t].1.len() <= usize::MAX);
    }
}

/// Advert-iff-vacancy law at tick granularity: a live job with a
/// notification pending when the tick runs (from last tick's hires, this
/// tick's expiries, or its own arrival) comes out of the tick's
/// reconciliation with an advert for each role exactly when that role's
/// vacancy — as the reconciliation saw it, before this tick's hires — is
/// positive.
pub proof fn lemma_tick_vacancy_iff(m: SimModel, now: u64, jid: u64)
    requires
        sim_wf(m),
        reg_has(m.reg, jid),
        exists|k: int|
            0 <= k < (m.dirty + expire_dirty(m.board.ads, now, m.expiry_secs)).len() && (
            #[trigger] (m.dirty + expire_dirty(m.board.ads, now, m.expiry_secs))[k]).job == jid,
    ensures
        forall|i: int|
            0 <= i < reg_roles(m.reg, jid).len() ==> (spec_tick(m, now).board.index.contains(
                (jid, i as usize),
            ) <==> spec_vacancy(#[trigger] reg_roles(m.reg, jid)[i]) > 0),
{
    let b1 = expire_board(m.board, now, m.expiry_secs);
    let dirty1 = m.dirty + expire_dirty(m.board.ads, now, m.expiry_secs);
    lemma_roles_len_bound(m.reg);
    lemma_reconcile_events_vacancy_iff(b1, m.reg, dirty1, now, jid);
}

/// Batch-cap law at tick granularity: within one tick no role's
/// membership grows by more than the configured per-tick cap, however
/// many eligible applications arrive.
pub proof fn lemma_tick_batch_cap(m: SimModel, now: u64)
    requires
        sim_wf(m),
    ensures
        forall|k: int, i: int|
            0 <= k < m.reg.len() && 0 <= i < m.reg[k].1.len()
                ==> (#[trigger] spec_tick(m, now).reg[k].1[i]).members.len()
                <= m.reg[k].1[i].members.len() + m.batch_cap,
{
    let b1 = expire_board(m.board, now, m.expiry_secs);
    let dirty1 = m.dirty + expire_dirty(m.board.ads, now, m.expiry_secs);
    let b2 = reconcile_events(b1, m.reg, dirty1, now);
    let resumes = m.inbox + all_applications(m.roster, b2.ads, m.reg);
    let start = HireState {
        reg: m.reg,
        roster: m.roster,
        dirty: Seq::empty(),
        hired: Map::empty(),
    };
    lemma_hiring_respects_batch_cap(start, resumes, m.batch_cap);
}

pub open spec fn dirty_of_job_fn() -> spec_fn(u64) -> VacancyDirty {
    |j: u64| VacancyDirty { job: j }
}

/// The core after a job definition arrives under handle `jid`: stored if
/// the handle is fresh, with a notification queued so that the next tick
/// posts its adverts; an already-used handle is a no-op.
pub open spec fn spec_add_job(m: SimModel, jid: u64, roles: Seq<RoleModel>) -> SimModel {
    if reg_has(m.reg, jid) {
        m
    } else {
        SimModel { reg: m.reg.push((jid, roles)), dirty: m.dirty.push(VacancyDirty { job: jid }), ..m }
    }
}

/// The core after an agent is born: it joins the roster unemployed; an
/// already-used handle is a no-op.
pub open spec fn spec_spawn_agent(m: SimModel, id: u64, age: Option<Age>) -> SimModel {
    if roster_has(m.roster, id) {
        m
    } else {
        SimModel { roster: m.roster.push(Agent { id, age, unemployed: true }), ..m }
    }
}

/// The core after an agent dies: it leaves the roster, its handle is
/// purged from every role membership, and every job whose membership
/// changed gets a vacancy-changed notification for the next tick.
pub open spec fn spec_remove_agent(m: SimModel, id: u64) -> SimModel {
    SimModel {
        roster: roster_without(m.roster, id),
        reg: reg_purged(m.reg, id),
        dirty: m.dirty + seq_keep(m.reg, mentions_pred(id)).map_values(reg_key_fn()).map_values(
            dirty_of_job_fn(),
        ),
        ..m
    }
}

impl Simulation {
    /// A fresh, empty simulation with the given advert time-to-live and
    /// per-role per-tick hiring batch cap.
    pub fn new(expiry_secs: u64, max_hires_per_role_per_cycle: u32) -> (s: Simulation)
        ensures
            s@.reg == Seq::<(u64, Seq<crate::jobs::RoleModel>)>::empty(),
            s@.board.ads == Seq::<crate::gregslist::Advert>::empty(),
            s@.board.index == Seq::<(u64, usize)>::empty(),
            s@.roster == Seq::<Agent>::empty(),
            s@.inbox == Seq::<Resume>::empty(),
            s@.dirty == Seq::<VacancyDirty>::empty(),
            s@.expiry_secs == expiry_secs,
            s@.batch_cap == max_hires_per_role_per_cycle,
            s@.time == 0,
            sim_wf(s@),
    {
        Simulation {
            registry: JobRegistry::new(),
            board: Gregslist::new(),
            roster: Roster::new(),
            inbox: ApplicationInbox::new(),
            dirty: Vec::new(),
            board_cfg: GregslistConfig { expiry_secs },
            hiring_cfg: HiringConfig { max_hires_per_role_per_cycle },
            time: 0,
        }
    }

    /// Run one tick at time `now`. Time never runs backwards.
    pub fn tick(&mut self, now: u64)
        requires
            sim_wf(old(self)@),
            old(self)@.time <= now,
        ensures
            final(self)@ == spec_tick(old(self)@, now),
            sim_wf(final(self)@),
    {
        let ghost m = old(self)@;
        proof {
            assert forall|k: int|
                0 <= k < m.board.ads.len() implies (#[trigger] m.board.ads[k]).date_posted
                <= now by {
                assert(m.board.ads[k].date_posted <= m.time);
            }
        }
        gregslist_expiration_system(&mut self.board, &self.board_cfg, now, &mut self.dirty);
        let ghost b1 = expire_board(m.board, now, m.expiry_secs);
        let ghost dirty1 = m.dirty + expire_dirty(m.board.ads, now, m.expiry_secs);
        post_job_openings(&mut self.board, &self.registry, &self.dirty, now);
        let ghost b2 = reconcile_events(b1, m.reg, dirty1, now);
        self.dirty = Vec::new();
        apply_for_jobs(&self.board, &self.registry, &self.roster, &mut self.inbox);
        let ghost resumes = m.inbox + all_applications(m.roster, b2.ads, m.reg);
        proof {
            assert(self.inbox@ =~= resumes);
        }
        evaluate_and_assign(
            &mut self.inbox,
            &mut self.registry,
            &mut self.roster,
            &self.hiring_cfg,
            &mut self.dirty,
        );
        self.time = now;
        let ghost start = HireState {
            reg: m.reg,
            roster: m.roster,
            dirty: Seq::empty(),
            hired: Map::empty(),
        };
        let ghost end = hire_resolve(start, resumes, m.batch_cap);
        proof {
            assert(self.dirty@ =~= Seq::<VacancyDirty>::empty().add(end.dirty));
            assert(Seq::<VacancyDirty>::empty() + end.dirty =~= end.dirty);
            assert(self.registry@ == end.reg);
            assert(self.roster@ == end.roster);
            assert(self.inbox@ =~= Seq::<Resume>::empty());

            // The invariant survives the tick.
            lemma_expire_board_wf(m.board, now, m.expiry_secs);
            lemma_roles_len_bound(m.reg);
            lemma_reconcile_events_prefix_wf(b1, m.reg, dirty1, dirty1.len() as int, now);
            assert(board_wf(b2));
            assert(posted_by(m.board.ads, now));
            assert(posted_by(b1.ads, now));
            assert(posted_by(b2.ads, now));
            lemma_hire_prefix_inv(start, resumes, resumes.len() as int, m.batch_cap);
            assert(hire_inv(start, end, m.batch_cap));
            assert(roster_wf(end.roster)) by {
                let ids1 = m.roster.map_values(agent_id_fn());
                let ids2 = end.roster.map_values(agent_id_fn());
                assert(ids2 =~= ids1);
            }
            assert forall|k: int|
                0 <= k < end.reg.len() implies (#[trigger] end.reg[k]).1.len() <= usize::MAX by {
                assert(end.reg[k].1.len() == m.reg[k].1.len());
            }
        }
    }

    /// Supply a job definition under handle `jid`. Every role must start
    /// within its maximum seat count. Fresh handles are stored and marked
    /// dirty so the next tick posts their adverts; used handles are a
    /// no-op.
    pub fn add_job(&mut self, jid: u64, job: Job) -> (added: bool)
        requires
            sim_wf(old(self)@),
            roles_cap_ok(job_view(job)),
        ensures
            added == !reg_has(old(self)@.reg, jid),
            final(self)@ == spec_add_job(old(self)@, jid, job_view(job)),
            sim_wf(final(self)@),
    {
        let nroles = job.roles.len();
        let ghost jv = job_view(job);
        proof {
            assert(jv.len() == nroles);
        }
        let added = self.registry.add_job(jid, job);
        if added {
            self.dirty.push(VacancyDirty { job: jid });
        }
        proof {
            if added {
                let reg2 = self.registry@;
                assert forall|k: int| 0 <= k < reg2.len() implies roles_cap_ok(
                    (#[trigger] reg2[k]).1,
                ) by {
                    if k < old(self)@.reg.len() {
                        assert(reg2[k] == old(self)@.reg[k]);
                    } else {
                        assert(reg2[k].1 == jv);
                    }
                }
                assert forall|k: int| 0 <= k < reg2.len() implies (#[trigger] reg2[k]).1.len()
                    <= usize::MAX by {
                    if k < old(self)@.reg.len() {
                        assert(reg2[k] == old(self)@.reg[k]);
                    } else {
                        assert(reg2[k].1 == jv);
                    }
                }
            }
        }
        added
    }

    /// An agent is born: it joins the roster unemployed, visible to the
    /// next intake pass. An already-used handle is a no-op.
    pub fn spawn_agent(&mut self, id: u64, age: Option<Age>) -> (added: bool)
        requires
            sim_wf(old(self)@),
        ensures
            added == !roster_has(old(self)@.roster, id),
            final(self)@ == spec_spawn_agent(old(self)@, id, age),
            sim_wf(final(self)@),
    {
        self.roster.spawn(id, age)
    }

    /// An agent died: remove it from the roster, purge its handle from
    /// every role membership, and notify every job whose membership
    /// changed so its vacancies are re-derived next tick.
    pub fn remove_agent(&mut self, id: u64)
        requires
            sim_wf(old(self)@),
        ensures
            final(self)@ == spec_remove_agent(old(self)@, id),
            sim_wf(final(self)@),
    {
        self.roster.remove(id);
        let changed = self.registry.purge_member(id);
        let ghost keys = seq_keep(old(self)@.reg, mentions_pred(id)).map_values(reg_key_fn());
        let n = changed.len();
        let mut t: usize = 0;
        #[verifier::loop_isolation(false)]
        while t < n
            invariant
                0 <= t <= n,
                self.registry@ == reg_purged(old(self)@.reg, id),
                self.roster@ == roster_without(old(self)@.roster, id),
                self.board@ == old(self)@.board,
                self.inbox@ == old(self)@.inbox,
                self.board_cfg == old(self).board_cfg,
                self.hiring_cfg == old(self).hiring_cfg,
                self.time == old(self).time,
                self.dirty@ == old(self)@.dirty + changed@.take(t as int).map_values(
                    dirty_of_job_fn(),
                ),
            decreases n - t,
        {
            let j = changed[t];
            self.dirty.push(VacancyDirty { job: j });
            proof {
                assert(changed@.take(t + 1 as int).map_values(dirty_of_job_fn()) =~= changed@.take(
                    t as int,
                ).map_values(dirty_of_job_fn()).push(VacancyDirty { job: j }));
            }
            t += 1;
        }
        proof {
            assert(changed@.take(n as int) == changed@);
            assert(self.dirty@ == old(self)@.dirty + keys.map_values(dirty_of_job_fn()));
            lemma_reg_purged_facts(old(self)@.reg, id);
            let reg2 = self.registry@;
            assert forall|k: int| 0 <= k < reg2.len() implies roles_cap_ok(
                (#[trigger] reg2[k]).1,
            ) by {
                assert(roles_cap_ok(old(self)@.reg[k].1));
                assert forall|i: int|
                    0 <= i < reg2[k].1.len() implies (#[trigger] reg2[k].1[i]).members.len()
                    <= reg2[k].1[i].max by {
                    assert(reg2[k].1[i].members.len() <= old(self)@.reg[k].1[i].members.len());
                    assert(old(self)@.reg[k].1[i].members.len() <= old(self)@.reg[k].1[i].max);
                }
            }
            assert forall|k: int| 0 <= k < reg2.len() implies (#[trigger] reg2[k]).1.len()
                <= usize::MAX by {
                assert(reg2[k].1.len() == old(self)@.reg[k].1.len());
            }
        }
    }

    /// How many adverts are currently live.
    pub fn advert_count(&self) -> (n: usize)
        ensures
            n == self@.board.ads.len(),
    {
        self.board.ads.len()
    }

    /// How many agents are alive.
    pub fn population(&self) -> (n: usize)
        ensures
            n == self@.roster.len(),
    {
        self.roster.population()
    }

    /// How many agents currently carry the unemployed tag.
    pub fn unemployed_count(&self) -> (n: usize)
        ensures
            n == count_unemployed(self@.roster),
    {
        self.roster.unemployed_count()
    }
}

} // verus!
