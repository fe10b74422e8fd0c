//! Board maintenance, application intake, and the hiring resolver.
//!
//! Per tick the stages run in a fixed order: expire stale adverts (see the
//! board module), reconcile the board against vacancies for every notified
//! job, collect applications from unemployed agents, then resolve hires
//! under capacity and per-tick batch limits.

use vstd::prelude::*;

use crate::agents::Agent;
use crate::agents::Roster;
use crate::agents::clear_unemployed_fn;
use crate::agents::roster_clear_unemployed;
use crate::gregslist::Advert;
use crate::gregslist::BoardModel;
use crate::gregslist::Gregslist;
use crate::gregslist::VacancyDirty;
use crate::gregslist::board_wf;
use crate::gregslist::posted_by;
use crate::gregslist::reconcile_role;
use crate::gregslist::lemma_reconcile_role_membership;
use crate::gregslist::lemma_reconcile_role_wf;
use crate::jobs::JobRegistry;
use crate::jobs::RegModel;
use crate::jobs::RoleModel;
use crate::jobs::RoleSpec;
use crate::jobs::Constraint;
use crate::jobs::reg_at;
use crate::jobs::reg_cap_ok;
use crate::jobs::reg_has;
use crate::jobs::reg_roles;
use crate::jobs::member_of;
use crate::jobs::reg_key_fn;
use crate::jobs::reg_wf;
use crate::jobs::roles_cap_ok;
use crate::jobs::role_view;
use crate::jobs::spec_vacancy;
use crate::jobs::vacancy;

verus! {

/// A transient candidate match: one agent applying to one (job, role).
#[derive(Clone, Copy, Debug, PartialEq, Eq, Structural)]
pub struct Resume {
    pub applicant: u64,
    pub job: u64,
    pub role_index: usize,
}

/// Applications queued for the resolver; drained once per tick.
pub struct ApplicationInbox {
    pub resumes: Vec<Resume>,
}

impl View for ApplicationInbox {
    type V = Seq<Resume>;

    open spec fn view(&self) -> Seq<Resume> {
        self.resumes@
    }
}

impl ApplicationInbox {
    /// An empty inbox.
    pub fn new() -> (r: ApplicationInbox)
        ensures
            r@ == Seq::<Resume>::empty(),
    {
        ApplicationInbox { resumes: Vec::new() }
    }
}

/// Hiring behavior knobs: how many hires one role can absorb in one tick.
#[derive(Clone, Copy, Debug, PartialEq, Eq, Structural)]
pub struct HiringConfig {
    pub max_hires_per_role_per_cycle: u32,
}

// ---------------------------------------------------------------------------
// Reconciliation: derive the advert set of a job from its vacancies.
// ---------------------------------------------------------------------------

/// The board after reconciling the first `n` roles of job `jid`.
pub open spec fn reconcile_roles_prefix(
    b: BoardModel,
    jid: u64,
    roles: Seq<RoleModel>,
    n: int,
    now: u64,
) -> BoardModel
    decreases n,
{
    if n <= 0 {
        b
    } else {
        reconcile_role(
            reconcile_roles_prefix(b, jid, roles, n - 1, now),
            jid,
            (n - 1) as usize,
            spec_vacancy(roles[n - 1]) > 0,
            now,
        )
    }
}

/// The board after reconciling every role of job `jid`: for each role an
/// advert exists afterwards iff its vacancy is positive.
pub open spec fn reconcile_roles(b: BoardModel, jid: u64, roles: Seq<RoleModel>, now: u64) -> BoardModel {
    reconcile_roles_prefix(b, jid, roles, roles.len() as int, now)
}

/// The board after draining the first `n` vacancy-changed notifications:
/// each one that resolves to a live job reconciles that job's roles; the
/// rest are skipped.
pub open spec fn reconcile_events_prefix(
    b: BoardModel,
    reg: RegModel,
    events: Seq<VacancyDirty>,
    n: int,
    now: u64,
) -> BoardModel
    decreases n,
{
    if n <= 0 {
        b
    } else {
        let prev = reconcile_events_prefix(b, reg, events, n - 1, now);
        let jid = events[n - 1].job;
        if reg_has(reg, jid) {
            reconcile_roles(prev, jid, reg_roles(reg, jid), now)
        } else {
            prev
        }
    }
}

/// The board after draining a whole notification queue.
pub open spec fn reconcile_events(
    b: BoardModel,
    reg: RegModel,
    events: Seq<VacancyDirty>,
    now: u64,
) -> BoardModel {
    reconcile_events_prefix(b, reg, events, events.len() as int, now)
}

/// Reconciling preserves the board invariant and posts nothing dated after
/// `now`.
pub proof fn lemma_reconcile_roles_prefix_wf(
    b: BoardModel,
    jid: u64,
    roles: Seq<RoleModel>,
    n: int,
    now: u64,
)
    requires
        board_wf(b),
        n <= usize::MAX,
    ensures
        board_wf(reconcile_roles_prefix(b, jid, roles, n, now)),
        forall|t: u64|
            posted_by(b.ads, t) && now <= t ==> posted_by(
                reconcile_roles_prefix(b, jid, roles, n, now).ads,
                t,
            ),
    decreases n,
{
    if n > 0 {
        lemma_reconcile_roles_prefix_wf(b, jid, roles, n - 1, now);
        let prev = reconcile_roles_prefix(b, jid, roles, n - 1, now);
        lemma_reconcile_role_wf(prev, jid, (n - 1) as usize, spec_vacancy(roles[n - 1]) > 0, now);
    }
}

/// Draining a notification queue preserves the board invariant and posts
/// nothing dated after `now`.
pub proof fn lemma_reconcile_events_prefix_wf(
    b: BoardModel,
    reg: RegModel,
    events: Seq<VacancyDirty>,
    n: int,
    now: u64,
)
    requires
        board_wf(b),
        forall|jid: u64| reg_has(reg, jid) ==> #[trigger] reg_roles(reg, jid).len() <= usize::MAX,
    ensures
        board_wf(reconcile_events_prefix(b, reg, events, n, now)),
        forall|t: u64|
            posted_by(b.ads, t) && now <= t ==> posted_by(
                reconcile_events_prefix(b, reg, events, n, now).ads,
                t,
            ),
    decreases n,
{
    if n > 0 {
        lemma_reconcile_events_prefix_wf(b, reg, events, n - 1, now);
        let prev = reconcile_events_prefix(b, reg, events, n - 1, now);
        let jid = events[n - 1].job;
        if reg_has(reg, jid) {
            lemma_reconcile_roles_prefix_wf(
                prev,
                jid,
                reg_roles(reg, jid),
                reg_roles(reg, jid).len() as int,
                now,
            );
        }
    }
}

/// How reconciling the first `n` roles of a job changes index membership:
/// the pairs of the touched roles track their vacancies, every other pair
/// is untouched.
pub proof fn lemma_reconcile_roles_prefix_membership(
    b: BoardModel,
    jid: u64,
    roles: Seq<RoleModel>,
    n: int,
    now: u64,
)
    requires
        0 <= n <= usize::MAX,
    ensures
        forall|q: (u64, usize)|
            #[trigger] reconcile_roles_prefix(b, jid, roles, n, now).index.contains(q) == if q.0
                == jid && (q.1 as int) < n {
                spec_vacancy(roles[q.1 as int]) > 0
            } else {
                b.index.contains(q)
            },
    decreases n,
{
    if n > 0 {
        lemma_reconcile_roles_prefix_membership(b, jid, roles, n - 1, now);
        let prev = reconcile_roles_prefix(b, jid, roles, n - 1, now);
        let i = (n - 1) as usize;
        lemma_reconcile_role_membership(prev, jid, i, spec_vacancy(roles[n - 1]) > 0, now);
        assert(i as int == n - 1);
    }
}

/// Reconciling a job whose adverts already reflect its vacancies changes
/// nothing.
pub proof fn lemma_reconcile_roles_prefix_noop(
    b: BoardModel,
    jid: u64,
    roles: Seq<RoleModel>,
    n: int,
    now: u64,
)
    requires
        0 <= n <= roles.len(),
        roles.len() <= usize::MAX,
        forall|i: int|
            0 <= i < roles.len() ==> (b.index.contains((jid, i as usize)) <==> spec_vacancy(
                #[trigger] roles[i],
            ) > 0),
    ensures
        reconcile_roles_prefix(b, jid, roles, n, now) == b,
    decreases n,
{
    if n > 0 {
        lemma_reconcile_roles_prefix_noop(b, jid, roles, n - 1, now);
        let i = (n - 1) as usize;
        assert(i as int == n - 1);
        assert(b.index.contains((jid, i)) <==> spec_vacancy(roles[n - 1]) > 0);
    }
}

/// Reconciling a job twice in succession, with no change to the job in
/// between, produces no change the second time: the second pass returns the
/// board exactly as the first pass left it, whatever the two timestamps.
pub proof fn lemma_reconcile_idempotent(
    b: BoardModel,
    jid: u64,
    roles: Seq<RoleModel>,
    now1: u64,
    now2: u64,
)
    requires
        roles.len() <= usize::MAX,
    ensures
        reconcile_roles(reconcile_roles(b, jid, roles, now1), jid, roles, now2) == reconcile_roles(
            b,
            jid,
            roles,
            now1,
        ),
{
    let b1 = reconcile_roles(b, jid, roles, now1);
    lemma_reconcile_roles_prefix_membership(b, jid, roles, roles.len() as int, now1);
    assert forall|i: int| 0 <= i < roles.len() implies (b1.index.contains((jid, i as usize))
        <==> spec_vacancy(#[trigger] roles[i]) > 0) by {
        let q = (jid, i as usize);
        assert(q.1 as int == i);
        assert(b1.index.contains(q) == (spec_vacancy(roles[q.1 as int]) > 0));
    }
    lemma_reconcile_roles_prefix_noop(b1, jid, roles, roles.len() as int, now2);
}

/// After a drain that contains a notification for the live job `jid`, an
/// advert for each of its roles exists iff that role's vacancy is positive.
pub proof fn lemma_events_prefix_vacancy_iff(
    b: BoardModel,
    reg: RegModel,
    events: Seq<VacancyDirty>,
    n: int,
    now: u64,
    jid: u64,
)
    requires
        reg_has(reg, jid),
        n <= events.len(),
        exists|k: int| 0 <= k < n && (#[trigger] events[k]).job == jid,
        forall|j: u64| reg_has(reg, j) ==> #[trigger] reg_roles(reg, j).len() <= usize::MAX,
    ensures
        forall|i: int|
            0 <= i < reg_roles(reg, jid).len() ==> (reconcile_events_prefix(
                b,
                reg,
                events,
                n,
                now,
            ).index.contains((jid, i as usize)) <==> spec_vacancy(
                #[trigger] reg_roles(reg, jid)[i],
            ) > 0),
    decreases n,
{
    let prev = reconcile_events_prefix(b, reg, events, n - 1, now);
    let e = events[n - 1].job;
    let roles = reg_roles(reg, jid);
    if e == jid {
        lemma_reconcile_roles_prefix_membership(prev, jid, roles, roles.len() as int, now);
        assert forall|i: int| 0 <= i < roles.len() implies (reconcile_events_prefix(
            b,
            reg,
            events,
            n,
            now,
        ).index.contains((jid, i as usize)) <==> spec_vacancy(#[trigger] roles[i]) > 0) by {
            let q = (jid, i as usize);
            assert(q.1 as int == i);
        }
    } else {
        let k = choose|k: int| 0 <= k < n && (#[trigger] events[k]).job == jid;
        assert(0 <= k < n - 1);
        lemma_events_prefix_vacancy_iff(b, reg, events, n - 1, now, jid);
        if reg_has(reg, e) {
            let eroles = reg_roles(reg, e);
            lemma_reconcile_roles_prefix_membership(prev, e, eroles, eroles.len() as int, now);
            assert forall|i: int| 0 <= i < roles.len() implies (reconcile_events_prefix(
                b,
                reg,
                events,
                n,
                now,
            ).index.contains((jid, i as usize)) <==> spec_vacancy(#[trigger] roles[i]) > 0) by {
                let q = (jid, i as usize);
                assert(reconcile_events_prefix(b, reg, events, n, now).index.contains(q)
                    == prev.index.contains(q));
            }
        }
    }
}

/// The vacancy-iff-advertised law over a whole drain (the form the tick
/// driver uses).
pub proof fn lemma_reconcile_events_vacancy_iff(
    b: BoardModel,
    reg: RegModel,
    events: Seq<VacancyDirty>,
    now: u64,
    jid: u64,
)
    requires
        reg_has(reg, jid),
        exists|k: int| 0 <= k < events.len() && (#[trigger] events[k]).job == jid,
        forall|j: u64| reg_has(reg, j) ==> #[trigger] reg_roles(reg, j).len() <= usize::MAX,
    ensures
        forall|i: int|
            0 <= i < reg_roles(reg, jid).len() ==> (reconcile_events(
                b,
                reg,
                events,
                now,
            ).index.contains((jid, i as usize)) <==> spec_vacancy(
                #[trigger] reg_roles(reg, jid)[i],
            ) > 0),
{
    lemma_events_prefix_vacancy_iff(b, reg, events, events.len() as int, now, jid);
}

/// Post or retract adverts so that the board reflects current vacancies for
/// every job named in the drained notifications; notifications whose job
/// handle does not resolve are skipped.
pub fn post_job_openings(
    board: &mut Gregslist,
    registry: &JobRegistry,
    events: &Vec<VacancyDirty>,
    now: u64,
)
    requires
        reg_wf(registry@),
    ensures
        final(board)@ == reconcile_events(old(board)@, registry@, events@, now),
{
    let ghost reg = registry@;
    let ne = events.len();
    let mut k: usize = 0;
    while k < ne
        invariant
            0 <= k <= ne,
            ne == events@.len(),
            reg_wf(reg),
            reg == registry@,
            board@ == reconcile_events_prefix(old(board)@, reg, events@, k as int, now),
        decreases ne - k,
    {
        let jid = events[k].job;
        let ghost b_event = board@;
        match registry.find(jid) {
            None => {
                proof {
                    assert(!reg_has(reg, jid));
                }
            },
            Some(jx) => {
                let ghost roles = reg_roles(reg, jid);
                proof {
                    assert(jx as int == reg_at(reg, jid));
                    assert(reg[jx as int].1 == roles);
                    assert(reg[jx as int] == job_entry_view_at(registry, jx as int));
                }
                let nroles = registry.jobs[jx].1.roles.len();
                proof {
                    assert(roles.len() == nroles);
                }
                let mut i: usize = 0;
                while i < nroles
                    invariant
                        0 <= i <= nroles,
                        jx < registry@.len(),
                        nroles == registry.jobs@[jx as int].1.roles@.len(),
                        roles == reg_roles(registry@, jid),
                        roles.len() == nroles,
                        forall|t: int|
                            0 <= t < nroles ==> #[trigger] roles[t] == role_view(
                                registry.jobs@[jx as int].1.roles@[t],
                            ),
                        board@ == reconcile_roles_prefix(b_event, jid, roles, i as int, now),
                    decreases nroles - i,
                {
                    let vac = vacancy(&registry.jobs[jx].1.roles[i]);
                    if vac > 0 {
                        board.post(jid, i, now);
                    } else {
                        board.retract(jid, i);
                    }
                    i += 1;
                }
            },
        }
        k += 1;
    }
}

// ---------------------------------------------------------------------------
// Application intake: unemployed agents apply to adverts they satisfy.
// ---------------------------------------------------------------------------

/// One constraint, checked against an optional age; an absent age fails
/// closed.
pub open spec fn constraint_ok(c: Constraint, age: Option<u8>) -> bool {
    match c {
        Constraint::AgeLessThan(n) => match age {
            Some(a) => a < n,
            None => false,
        },
        Constraint::AgeAtLeast(n) => match age {
            Some(a) => a >= n,
            None => false,
        },
    }
}

/// All constraints hold (a conjunction; trivially true when there are
/// none).
pub open spec fn constraints_ok_spec(cs: Seq<Constraint>, age: Option<u8>) -> bool {
    forall|k: int| 0 <= k < cs.len() ==> constraint_ok(#[trigger] cs[k], age)
}

/// Whether an agent with the given optional age satisfies every constraint
/// of the role definition.
pub fn constraints_ok(role_spec: &RoleSpec, maybe_age: Option<u8>) -> (ok: bool)
    ensures
        ok == constraints_ok_spec(role_spec.constraints@, maybe_age),
{
    let n = role_spec.constraints.len();
    let mut k: usize = 0;
    while k < n
        invariant
            0 <= k <= n,
            n == role_spec.constraints@.len(),
            forall|t: int| 0 <= t < k ==> constraint_ok(#[trigger] role_spec.constraints@[t], maybe_age),
        decreases n - k,
    {
        let c = role_spec.constraints[k];
        let holds = match c {
            Constraint::AgeLessThan(bound) => match maybe_age {
                Some(a) => a < bound,
                None => false,
            },
            Constraint::AgeAtLeast(bound) => match maybe_age {
                Some(a) => a >= bound,
                None => false,
            },
        };
        if !holds {
            proof {
                assert(!constraint_ok(role_spec.constraints@[k as int], maybe_age));
            }
            return false;
        }
        k += 1;
    }
    true
}

/// The age the intake reads from an agent, if one is known.
pub open spec fn age_of(a: Agent) -> Option<u8> {
    match a.age {
        Some(x) => Some(x.years),
        None => None,
    }
}

/// The resume agent `a` files for advert `ad`, if any: the job must
/// resolve, the role must exist, the agent must not already be a member of
/// it, and every constraint must hold.
pub open spec fn resume_for(a: Agent, ad: Advert, reg: RegModel) -> Option<Resume> {
    if reg_has(reg, ad.job) {
        let roles = reg_roles(reg, ad.job);
        if (ad.role_index as int) < roles.len() {
            let role = roles[ad.role_index as int];
            if !role.members.contains(a.id) && constraints_ok_spec(role.constraints, age_of(a)) {
                Some(Resume { applicant: a.id, job: ad.job, role_index: ad.role_index })
            } else {
                None
            }
        } else {
            None
        }
    } else {
        None
    }
}

/// The resumes agent `a` files against the first `n` adverts, in board
/// order.
pub open spec fn applications_for_prefix(
    a: Agent,
    ads: Seq<Advert>,
    reg: RegModel,
    n: int,
) -> Seq<Resume>
    decreases n,
{
    if n <= 0 {
        Seq::empty()
    } else {
        let rest = applications_for_prefix(a, ads, reg, n - 1);
        match resume_for(a, ads[n - 1], reg) {
            Some(r) => rest.push(r),
            None => rest,
        }
    }
}

pub open spec fn applications_for(a: Agent, ads: Seq<Advert>, reg: RegModel) -> Seq<Resume> {
    applications_for_prefix(a, ads, reg, ads.len() as int)
}

/// The resumes the first `n` roster agents file, in roster order; only
/// unemployed agents apply.
pub open spec fn all_applications_prefix(
    roster: Seq<Agent>,
    ads: Seq<Advert>,
    reg: RegModel,
    n: int,
) -> Seq<Resume>
    decreases n,
{
    if n <= 0 {
        Seq::empty()
    } else {
        let rest = all_applications_prefix(roster, ads, reg, n - 1);
        if roster[n - 1].unemployed {
            rest + applications_for(roster[n - 1], ads, reg)
        } else {
            rest
        }
    }
}

pub open spec fn all_applications(roster: Seq<Agent>, ads: Seq<Advert>, reg: RegModel) -> Seq<
    Resume,
> {
    all_applications_prefix(roster, ads, reg, roster.len() as int)
}

/// For every unemployed agent and every live advert, queue one resume when
/// the agent is not already a member of the advertised role and satisfies
/// all of its constraints.
pub fn apply_for_jobs(
    board: &Gregslist,
    registry: &JobRegistry,
    roster: &Roster,
    inbox: &mut ApplicationInbox,
)
    requires
        reg_wf(registry@),
    ensures
        final(inbox)@ == old(inbox)@ + all_applications(roster@, board@.ads, registry@),
{
    let ghost reg = registry@;
    let ghost ads = board@.ads;
    let na = roster.agents.len();
    let mut k: usize = 0;
    while k < na
        invariant
            0 <= k <= na,
            na == roster@.len(),
            reg == registry@,
            ads == board@.ads,
            reg_wf(reg),
            inbox@ == old(inbox)@ + all_applications_prefix(roster@, ads, reg, k as int),
        decreases na - k,
    {
        let agent = roster.agents[k];
        if agent.unemployed {
            let maybe_age = match agent.age {
                Some(a) => Some(a.years),
                None => None,
            };
            proof {
                assert(maybe_age == age_of(agent));
            }
            let nads = board.ads.len();
            let mut j: usize = 0;
            while j < nads
                invariant
                    0 <= j <= nads,
                    nads == board@.ads.len(),
                    reg == registry@,
                    ads == board@.ads,
                    reg_wf(reg),
                    agent == roster@[k as int],
                    maybe_age == age_of(agent),
                    inbox@ == old(inbox)@ + all_applications_prefix(roster@, ads, reg, k as int)
                        + applications_for_prefix(agent, ads, reg, j as int),
                decreases nads - j,
            {
                let ad = board.ads[j];
                match registry.find(ad.job) {
                    None => {
                        proof {
                            assert(resume_for(agent, ads[j as int], reg) is None);
                        }
                    },
                    Some(jx) => {
                        proof {
                            assert(jx as int == reg_at(reg, ad.job));
                            assert(reg[jx as int] == job_entry_view_at(registry, jx as int));
                        }
                        let nroles = registry.jobs[jx].1.roles.len();
                        proof {
                            assert(reg_roles(reg, ad.job).len() == nroles);
                        }
                        if ad.role_index < nroles {
                            let role = &registry.jobs[jx].1.roles[ad.role_index];
                            proof {
                                let ri = ad.role_index as int;
                                assert(role_view(registry.jobs@[jx as int].1.roles@[ri])
                                    == reg_roles(reg, ad.job)[ri]);
                            }
                            if !member_of(&role.1, agent.id) {
                                if constraints_ok(&role.0, maybe_age) {
                                    inbox.resumes.push(
                                        Resume {
                                            applicant: agent.id,
                                            job: ad.job,
                                            role_index: ad.role_index,
                                        },
                                    );
                                }
                            }
                        }
                    },
                }
                j += 1;
            }
            proof {
                assert(all_applications_prefix(roster@, ads, reg, k + 1 as int)
                    =~= all_applications_prefix(roster@, ads, reg, k as int) + applications_for(
                    agent,
                    ads,
                    reg,
                ));
                assert(inbox@ =~= old(inbox)@ + all_applications_prefix(
                    roster@,
                    ads,
                    reg,
                    k + 1 as int,
                ));
            }
        } else {
            proof {
                assert(all_applications_prefix(roster@, ads, reg, k + 1 as int)
                    == all_applications_prefix(roster@, ads, reg, k as int));
            }
        }
        k += 1;
    }
}

// ---------------------------------------------------------------------------
// Hiring resolver: drain the queued resumes in arrival order.
// ---------------------------------------------------------------------------

/// Ghost state the resolver threads through the drain: the registry, the
/// roster, the notification queue, and how many hires each (job, role)
/// absorbed so far this tick.
pub struct HireState {
    pub reg: RegModel,
    pub roster: Seq<Agent>,
    pub dirty: Seq<VacancyDirty>,
    pub hired: Map<(u64, usize), u32>,
}

/// Hires committed to the pair `p` so far this tick.
pub open spec fn count_of(m: Map<(u64, usize), u32>, p: (u64, usize)) -> u32 {
    if m.dom().contains(p) {
        m[p]
    } else {
        0
    }
}

/// The registry after agent `agent` joins role `i` of job `jid`.
pub open spec fn reg_commit(reg: RegModel, jid: u64, i: int, agent: u64) -> RegModel {
    let t = reg_at(reg, jid);
    let roles = reg[t].1;
    let role = roles[i];
    let role2 = RoleModel {
        min: role.min,
        max: role.max,
        constraints: role.constraints,
        members: role.members.push(agent),
    };
    reg.update(t, (jid, roles.update(i, role2)))
}

/// One resolver step. A resume is skipped when its job does not resolve,
/// its role index is out of range, the applicant is already a member, the
/// role is full, or the role already absorbed `cap` hires this tick;
/// otherwise the hire is committed: the agent joins the role, loses its
/// unemployed tag, and a vacancy-changed notification is queued.
pub open spec fn hire_step(s: HireState, r: Resume, cap: u32) -> HireState {
    if !reg_has(s.reg, r.job) {
        s
    } else {
        let roles = reg_roles(s.reg, r.job);
        if roles.len() <= r.role_index {
            s
        } else {
            let role = roles[r.role_index as int];
            let p = (r.job, r.role_index);
            if role.members.contains(r.applicant) {
                s
            } else if role.members.len() >= role.max {
                s
            } else if count_of(s.hired, p) >= cap {
                s
            } else {
                HireState {
                    reg: reg_commit(s.reg, r.job, r.role_index as int, r.applicant),
                    roster: roster_clear_unemployed(s.roster, r.applicant),
                    dirty: s.dirty.push(VacancyDirty { job: r.job }),
                    hired: s.hired.insert(p, (count_of(s.hired, p) + 1) as u32),
                }
            }
        }
    }
}

/// The resolver state after the first `n` resumes, in arrival order.
pub open spec fn hire_prefix(s: HireState, resumes: Seq<Resume>, n: int, cap: u32) -> HireState
    decreases n,
{
    if n <= 0 {
        s
    } else {
        hire_step(hire_prefix(s, resumes, n - 1, cap), resumes[n - 1], cap)
    }
}

/// The resolver state after draining the whole queue.
pub open spec fn hire_resolve(s: HireState, resumes: Seq<Resume>, cap: u32) -> HireState {
    hire_prefix(s, resumes, resumes.len() as int, cap)
}

/// What one resolver drain preserves: job handles, role counts, and role
/// definitions never change; each role's membership grows by exactly its
/// hire counter, which never exceeds the batch cap; roster handles and
/// ages never change and unemployed tags are only cleared; and the
/// capacity bound, once true, stays true.
pub open spec fn hire_inv(s0: HireState, s: HireState, cap: u32) -> bool {
    &&& s.reg.len() == s0.reg.len()
    &&& forall|k: int|
        0 <= k < s0.reg.len() ==> (#[trigger] s.reg[k]).0 == s0.reg[k].0 && s.reg[k].1.len()
            == s0.reg[k].1.len()
    &&& forall|k: int, i: int|
        0 <= k < s0.reg.len() && 0 <= i < s0.reg[k].1.len() ==> ((#[trigger] s.reg[k].1[i]).min
            == s0.reg[k].1[i].min && s.reg[k].1[i].max == s0.reg[k].1[i].max
            && s.reg[k].1[i].constraints == s0.reg[k].1[i].constraints
            && s.reg[k].1[i].members.len() == s0.reg[k].1[i].members.len() + count_of(
            s.hired,
            (s0.reg[k].0, i as usize),
        ))
    &&& forall|p: (u64, usize)| #[trigger] count_of(s.hired, p) <= cap
    &&& reg_wf(s.reg)
    &&& s.roster.len() == s0.roster.len()
    &&& forall|t: int|
        0 <= t < s0.roster.len() ==> ((#[trigger] s.roster[t]).id == s0.roster[t].id
            && s.roster[t].age == s0.roster[t].age && (s.roster[t].unemployed
            ==> s0.roster[t].unemployed))
    &&& reg_cap_ok(s0.reg) ==> reg_cap_ok(s.reg)
}

/// The resolver drain maintains `hire_inv` after any number of resumes.
pub proof fn lemma_hire_prefix_inv(s0: HireState, resumes: Seq<Resume>, n: int, cap: u32)
    requires
        reg_wf(s0.reg),
        s0.hired == Map::<(u64, usize), u32>::empty(),
        forall|k: int| 0 <= k < s0.reg.len() ==> (#[trigger] s0.reg[k]).1.len() <= usize::MAX,
    ensures
        hire_inv(s0, hire_prefix(s0, resumes, n, cap), cap),
    decreases n,
{
    if n <= 0 {
        assert forall|p: (u64, usize)| #[trigger] count_of(s0.hired, p) <= cap by {
            assert(!s0.hired.dom().contains(p));
        }
    } else {
        lemma_hire_prefix_inv(s0, resumes, n - 1, cap);
        let s = hire_prefix(s0, resumes, n - 1, cap);
        let r = resumes[n - 1];
        let s2 = hire_step(s, r, cap);
        if s2 != s {
            let t = reg_at(s.reg, r.job);
            let ri = r.role_index as int;
            let roles = reg_roles(s.reg, r.job);
            let role = roles[ri];
            let p = (r.job, r.role_index);
            assert(reg_has(s.reg, r.job));
            assert(0 <= t < s.reg.len() && s.reg[t].0 == r.job);
            assert(0 <= ri < s.reg[t].1.len());
            assert(s2.reg == s.reg.update(
                t,
                (
                    r.job,
                    s.reg[t].1.update(
                        ri,
                        RoleModel {
                            min: role.min,
                            max: role.max,
                            constraints: role.constraints,
                            members: role.members.push(r.applicant),
                        },
                    ),
                ),
            ));
            // handles are unique, so only entry t carries r.job
            assert forall|k: int| 0 <= k < s.reg.len() && k != t implies (#[trigger] s.reg[k]).0
                != r.job by {
                let keys = s.reg.map_values(reg_key_fn());
                assert(keys[k] == s.reg[k].0);
                assert(keys[t] == s.reg[t].0);
            }
            assert(reg_wf(s2.reg)) by {
                let keys1 = s.reg.map_values(reg_key_fn());
                let keys2 = s2.reg.map_values(reg_key_fn());
                assert(keys2 =~= keys1);
            }
            assert forall|k: int, i: int|
                0 <= k < s0.reg.len() && 0 <= i < s0.reg[k].1.len() implies ((
            #[trigger] s2.reg[k].1[i]).min == s0.reg[k].1[i].min && s2.reg[k].1[i].max
                == s0.reg[k].1[i].max && s2.reg[k].1[i].constraints == s0.reg[k].1[i].constraints
                && s2.reg[k].1[i].members.len() == s0.reg[k].1[i].members.len() + count_of(
                s2.hired,
                (s0.reg[k].0, i as usize),
            )) by {
                let q = (s0.reg[k].0, i as usize);
                if k == t && i == ri {
                    assert(q == p);
                    assert(count_of(s2.hired, p) == count_of(s.hired, p) + 1);
                } else {
                    assert(s2.reg[k].1[i] == s.reg[k].1[i]);
                    if k != t {
                        assert(s.reg[k].0 != r.job);
                        assert(s0.reg[k].0 != r.job);
                        assert(q != p);
                    } else {
                        assert(i as usize != r.role_index);
                        assert(q != p);
                    }
                    assert(count_of(s2.hired, q) == count_of(s.hired, q));
                }
            }
            assert forall|q: (u64, usize)| #[trigger] count_of(s2.hired, q) <= cap by {
                if q != p {
                    assert(count_of(s2.hired, q) == count_of(s.hired, q));
                }
            }
            if reg_cap_ok(s0.reg) {
                assert forall|k: int|
                    0 <= k < s2.reg.len() implies roles_cap_ok((#[trigger] s2.reg[k]).1) by {
                    assert(roles_cap_ok(s.reg[k].1));
                    if k == t {
                        assert forall|i: int|
                            0 <= i < s2.reg[k].1.len() implies (#[trigger] s2.reg[k].1[i]).members.len()
                            <= s2.reg[k].1[i].max by {
                            if i == ri {
                                assert(role.members.len() < role.max);
                            } else {
                                assert(s2.reg[k].1[i] == s.reg[k].1[i]);
                            }
                        }
                    }
                }
            }
            assert forall|x: int|
                0 <= x < s0.roster.len() implies ((#[trigger] s2.roster[x]).id == s0.roster[x].id
                && s2.roster[x].age == s0.roster[x].age && (s2.roster[x].unemployed
                ==> s0.roster[x].unemployed)) by {
                assert(s2.roster[x] == clear_unemployed_fn(r.applicant)(s.roster[x]));
            }
        }
    }
}

/// Capacity law: if every role starts within its maximum seat count, a
/// resolver drain never pushes any role's membership above it.
pub proof fn lemma_hiring_respects_capacity(s0: HireState, resumes: Seq<Resume>, cap: u32)
    requires
        reg_wf(s0.reg),
        reg_cap_ok(s0.reg),
        s0.hired == Map::<(u64, usize), u32>::empty(),
        forall|k: int| 0 <= k < s0.reg.len() ==> (#[trigger] s0.reg[k]).1.len() <= usize::MAX,
    ensures
        reg_cap_ok(hire_resolve(s0, resumes, cap).reg),
{
    lemma_hire_prefix_inv(s0, resumes, resumes.len() as int, cap);
}

/// Batch-cap law: within one drain, no role's membership grows by more
/// than the configured per-tick cap, however many eligible applications
/// are queued.
pub proof fn lemma_hiring_respects_batch_cap(s0: HireState, resumes: Seq<Resume>, cap: u32)
    requires
        reg_wf(s0.reg),
        s0.hired == Map::<(u64, usize), u32>::empty(),
        forall|k: int| 0 <= k < s0.reg.len() ==> (#[trigger] s0.reg[k]).1.len() <= usize::MAX,
    ensures
        forall|k: int, i: int|
            0 <= k < s0.reg.len() && 0 <= i < s0.reg[k].1.len()
                ==> (#[trigger] hire_resolve(s0, resumes, cap).reg[k].1[i]).members.len()
                <= s0.reg[k].1[i].members.len() + cap,
{
    lemma_hire_prefix_inv(s0, resumes, resumes.len() as int, cap);
    let s = hire_resolve(s0, resumes, cap);
    assert forall|k: int, i: int|
        0 <= k < s0.reg.len() && 0 <= i < s0.reg[k].1.len() implies (
    #[trigger] s.reg[k].1[i]).members.len() <= s0.reg[k].1[i].members.len() + cap by {
        assert(s.reg[k].1[i].members.len() == s0.reg[k].1[i].members.len() + count_of(
            s.hired,
            (s0.reg[k].0, i as usize),
        ));
        assert(count_of(s.hired, (s0.reg[k].0, i as usize)) <= cap);
    }
}

/// The per-tick hire counters, kept as a duplicate-free association list
/// agreeing with the ghost counter map.
pub open spec fn counts_agree(cs: Seq<(u64, usize, u32)>, m: Map<(u64, usize), u32>) -> bool {
    &&& forall|x: int, y: int|
        0 <= x < y < cs.len() ==> ((#[trigger] cs[x]).0, cs[x].1) != ((#[trigger] cs[y]).0,
        cs[y].1)
    &&& forall|x: int|
        0 <= x < cs.len() ==> m.dom().contains(((#[trigger] cs[x]).0, cs[x].1)) && m[
            (cs[x].0, cs[x].1)
        ] == cs[x].2
    &&& forall|p: (u64, usize)|
        #[trigger] m.dom().contains(p) ==> exists|x: int|
            0 <= x < cs.len() && ((#[trigger] cs[x]).0, cs[x].1) == p
}

/// Read the hire counter of (job, role index); zero when absent.
fn counts_get(
    cs: &Vec<(u64, usize, u32)>,
    job: u64,
    role_index: usize,
    Ghost(m): Ghost<Map<(u64, usize), u32>>,
) -> (c: u32)
    requires
        counts_agree(cs@, m),
    ensures
        c == count_of(m, (job, role_index)),
{
    let n = cs.len();
    let mut k: usize = 0;
    while k < n
        invariant
            0 <= k <= n,
            n == cs@.len(),
            counts_agree(cs@, m),
            forall|t: int| 0 <= t < k ==> ((#[trigger] cs@[t]).0, cs@[t].1) != (job, role_index),
        decreases n - k,
    {
        let e = cs[k];
        if e.0 == job && e.1 == role_index {
            return e.2;
        }
        k += 1;
    }
    proof {
        if m.dom().contains((job, role_index)) {
            let x = choose|x: int|
                0 <= x < cs@.len() && ((#[trigger] cs@[x]).0, cs@[x].1) == (job, role_index);
            assert(false);
        }
    }
    0
}

/// Add one to the hire counter of (job, role index).
fn counts_bump(
    cs: &mut Vec<(u64, usize, u32)>,
    job: u64,
    role_index: usize,
    Ghost(m): Ghost<Map<(u64, usize), u32>>,
)
    requires
        counts_agree(old(cs)@, m),
        count_of(m, (job, role_index)) < u32::MAX,
    ensures
        counts_agree(
            final(cs)@,
            m.insert((job, role_index), (count_of(m, (job, role_index)) + 1) as u32),
        ),
{
    let ghost p = (job, role_index);
    let ghost m2 = m.insert(p, (count_of(m, p) + 1) as u32);
    let n = cs.len();
    let mut k: usize = 0;
    while k < n
        invariant
            0 <= k <= n,
            n == cs@.len(),
            cs@ == old(cs)@,
            counts_agree(cs@, m),
            count_of(m, (job, role_index)) < u32::MAX,
            p == (job, role_index),
            m2 == m.insert((job, role_index), (count_of(m, (job, role_index)) + 1) as u32),
            forall|t: int| 0 <= t < k ==> ((#[trigger] cs@[t]).0, cs@[t].1) != (job, role_index),
        decreases n - k,
    {
        let ek = cs[k];
        let hit = ek.0 == job && ek.1 == role_index;
        if hit {
            let c = ek.2;
            proof {
                assert(ek == cs@[k as int]);
                assert((cs@[k as int].0, cs@[k as int].1) == p);
                assert(m.dom().contains(p) && m[p] == c);
                assert forall|x: int|
                    0 <= x < cs@.len() && x != k as int implies ((#[trigger] cs@[x]).0, cs@[x].1)
                    != p by {
                    let pivot = cs@[k as int];
                    if x < k as int {
                        assert((cs@[x].0, cs@[x].1) != (pivot.0, pivot.1));
                    } else {
                        assert((pivot.0, pivot.1) != (cs@[x].0, cs@[x].1));
                    }
                }
            }
            let ghost cs_before = cs@;
            let e = &mut cs[k];
            e.2 = c + 1;
            proof {
                assert(cs@ =~= cs_before.update(k as int, (job, role_index, (c + 1) as u32)));
                assert forall|x: int, y: int|
                    0 <= x < y < cs@.len() implies ((#[trigger] cs@[x]).0, cs@[x].1) != ((
                    #[trigger] cs@[y]).0, cs@[y].1) by {
                    assert((cs@[x].0, cs@[x].1) == (cs_before[x].0, cs_before[x].1));
                    assert((cs@[y].0, cs@[y].1) == (cs_before[y].0, cs_before[y].1));
                }
                assert forall|x: int|
                    0 <= x < cs@.len() implies m2.dom().contains(((#[trigger] cs@[x]).0, cs@[x].1))
                    && m2[(cs@[x].0, cs@[x].1)] == cs@[x].2 by {
                    if x != k as int {
                        assert(cs@[x] == cs_before[x]);
                        assert((cs_before[x].0, cs_before[x].1) != p);
                    }
                }
                assert forall|q: (u64, usize)| #[trigger] m2.dom().contains(q) implies exists|x: int|
                    0 <= x < cs@.len() && ((#[trigger] cs@[x]).0, cs@[x].1) == q by {
                    if q == p {
                        assert((cs@[k as int].0, cs@[k as int].1) == q);
                    } else {
                        assert(m.dom().contains(q));
                        let x = choose|x: int|
                            0 <= x < cs_before.len() && ((#[trigger] cs_before[x]).0,
                            cs_before[x].1) == q;
                        assert((cs@[x].0, cs@[x].1) == q);
                    }
                }
            }
            return ;
        }
        k += 1;
    }
    cs.push((job, role_index, 1));
    proof {
        assert(count_of(m, p) == 0) by {
            if m.dom().contains(p) {
                let x = choose|x: int|
                    0 <= x < old(cs)@.len() && ((#[trigger] old(cs)@[x]).0, old(cs)@[x].1) == p;
                assert(false);
            }
        }
        assert forall|x: int|
            0 <= x < cs@.len() implies m2.dom().contains(((#[trigger] cs@[x]).0, cs@[x].1)) && m2[
            (cs@[x].0, cs@[x].1)
        ] == cs@[x].2 by {
            if x < old(cs)@.len() {
                assert(cs@[x] == old(cs)@[x]);
                assert((cs@[x].0, cs@[x].1) != p);
            }
        }
        assert forall|q: (u64, usize)| #[trigger] m2.dom().contains(q) implies exists|x: int|
            0 <= x < cs@.len() && ((#[trigger] cs@[x]).0, cs@[x].1) == q by {
            if q == p {
                assert((cs@[cs@.len() - 1].0, cs@[cs@.len() - 1].1) == q);
            } else {
                assert(m.dom().contains(q));
                let x = choose|x: int|
                    0 <= x < old(cs)@.len() && ((#[trigger] old(cs)@[x]).0, old(cs)@[x].1) == q;
                assert((cs@[x].0, cs@[x].1) == q);
            }
        }
    }
}

/// Append `agent` to the members of role `i` of the registry entry at
/// position `t`.
fn commit_member(registry: &mut JobRegistry, t: usize, i: usize, agent: u64)
    requires
        t < old(registry)@.len(),
        i < old(registry)@[t as int].1.len(),
    ensures
        ({
            let entry = old(registry)@[t as int];
            let role = entry.1[i as int];
            let role2 = RoleModel {
                min: role.min,
                max: role.max,
                constraints: role.constraints,
                members: role.members.push(agent),
            };
            final(registry)@ == old(registry)@.update(
                t as int,
                (entry.0, entry.1.update(i as int, role2)),
            )
        }),
{
    proof {
        assert(registry@[t as int] == job_entry_view_at(registry, t as int));
        assert(registry@[t as int].1 == registry.jobs@[t as int].1.roles@.map_values(
            |r: (RoleSpec, Vec<u64>)| role_view(r),
        ));
    }
    let ghost jobs_before = registry.jobs@;
    let roleref = &mut registry.jobs[t].1.roles[i];
    roleref.1.push(agent);
    proof {
        let entry = old(registry)@[t as int];
        let role = entry.1[i as int];
        let role2 = RoleModel {
            min: role.min,
            max: role.max,
            constraints: role.constraints,
            members: role.members.push(agent),
        };
        let tuple_before = jobs_before[t as int].1.roles@[i as int];
        let tuple_after = registry.jobs@[t as int].1.roles@[i as int];
        assert(tuple_after.0 == tuple_before.0);
        assert(tuple_after.1@ == tuple_before.1@.push(agent));
        assert(role_view(tuple_after) == role2);
        assert(registry.jobs@[t as int].1.roles@ =~= jobs_before[t as int].1.roles@.update(
            i as int,
            tuple_after,
        ));
        assert(crate::jobs::job_view(registry.jobs@[t as int].1) =~= entry.1.update(
            i as int,
            role2,
        ));
        assert(registry@ =~~= old(registry)@.update(
            t as int,
            (entry.0, entry.1.update(i as int, role2)),
        ));
    }
}

/// Drain every queued resume once, in arrival (first-applied, first-hired)
/// order, and commit each hire that passes the checks: the job resolves,
/// the role exists, the applicant is not already a member, the role has
/// room below its maximum seats, and the role's per-tick batch cap is not
/// yet reached. A commit adds the agent to the role, clears its unemployed
/// tag, and queues a vacancy-changed notification for the next tick.
pub fn evaluate_and_assign(
    inbox: &mut ApplicationInbox,
    registry: &mut JobRegistry,
    roster: &mut Roster,
    cfg: &HiringConfig,
    dirty: &mut Vec<VacancyDirty>,
)
    requires
        reg_wf(old(registry)@),
    ensures
        final(inbox)@ == Seq::<Resume>::empty(),
        ({
            let end = hire_resolve(
                HireState {
                    reg: old(registry)@,
                    roster: old(roster)@,
                    dirty: old(dirty)@,
                    hired: Map::empty(),
                },
                old(inbox)@,
                cfg.max_hires_per_role_per_cycle,
            );
            final(registry)@ == end.reg && final(roster)@ == end.roster && final(dirty)@
                == end.dirty
        }),
{
    let ghost s0 = HireState {
        reg: registry@,
        roster: roster@,
        dirty: dirty@,
        hired: Map::empty(),
    };
    let cap = cfg.max_hires_per_role_per_cycle;
    let mut counts: Vec<(u64, usize, u32)> = Vec::new();
    let nr = inbox.resumes.len();
    let mut k: usize = 0;
    while k < nr
        invariant
            0 <= k <= nr,
            nr == inbox@.len(),
            inbox@ == old(inbox)@,
            s0 == (HireState {
                reg: old(registry)@,
                roster: old(roster)@,
                dirty: old(dirty)@,
                hired: Map::<(u64, usize), u32>::empty(),
            }),
            reg_wf(s0.reg),
            cap == cfg.max_hires_per_role_per_cycle,
            ({
                let s = hire_prefix(s0, inbox@, k as int, cap);
                registry@ == s.reg && roster@ == s.roster && dirty@ == s.dirty && counts_agree(
                    counts@,
                    s.hired,
                )
            }),
            reg_wf(registry@),
        decreases nr - k,
    {
        let r = inbox.resumes[k];
        let ghost s = hire_prefix(s0, inbox@, k as int, cap);
        proof {
            assert(inbox@[k as int] == r);
            assert(hire_prefix(s0, inbox@, k + 1 as int, cap) == hire_step(s, r, cap));
        }
        match registry.find(r.job) {
            None => {
                proof {
                    assert(hire_step(s, r, cap) == s);
                }
            },
            Some(jx) => {
                let ghost roles = reg_roles(s.reg, r.job);
                proof {
                    assert(jx as int == reg_at(s.reg, r.job));
                    assert(registry@[jx as int] == job_entry_view_at(registry, jx as int));
                    assert(roles == registry@[jx as int].1);
                }
                let nroles = registry.jobs[jx].1.roles.len();
                proof {
                    assert(roles.len() == nroles);
                }
                if r.role_index >= nroles {
                    proof {
                        assert(hire_step(s, r, cap) == s);
                    }
                } else {
                    let ghost role_m = roles[r.role_index as int];
                    proof {
                        let ri = r.role_index as int;
                        assert(role_m == role_view(registry.jobs@[jx as int].1.roles@[ri]));
                    }
                    let role = &registry.jobs[jx].1.roles[r.role_index];
                    let already = member_of(&role.1, r.applicant);
                    if already {
                        proof {
                            assert(role_m.members.contains(r.applicant));
                            assert(hire_step(s, r, cap) == s);
                        }
                    } else {
                        let current = role.1.len();
                        let max_seats = role.0.max;
                        proof {
                            assert(current == role_m.members.len());
                            assert(max_seats == role_m.max);
                        }
                        if current >= max_seats as usize {
                            proof {
                                assert(role_m.members.len() >= role_m.max);
                                assert(hire_step(s, r, cap) == s);
                            }
                        } else {
                            let c = counts_get(&counts, r.job, r.role_index, Ghost(s.hired));
                            if c >= cap {
                                proof {
                                    assert(hire_step(s, r, cap) == s);
                                }
                            } else {
                                let ghost reg_before = registry@;
                                commit_member(registry, jx, r.role_index, r.applicant);
                                roster.clear_unemployed(r.applicant);
                                dirty.push(VacancyDirty { job: r.job });
                                counts_bump(&mut counts, r.job, r.role_index, Ghost(s.hired));
                                proof {
                                    let s2 = hire_step(s, r, cap);
                                    assert(registry@ == reg_commit(
                                        s.reg,
                                        r.job,
                                        r.role_index as int,
                                        r.applicant,
                                    ));
                                    assert(registry@ == s2.reg);
                                    assert(roster@ == s2.roster);
                                    assert(dirty@ == s2.dirty);
                                    assert(counts_agree(counts@, s2.hired));
                                    let keys1 = reg_before.map_values(crate::jobs::reg_key_fn());
                                    let keys2 = registry@.map_values(crate::jobs::reg_key_fn());
                                    assert(keys2 =~= keys1);
                                }
                            }
                        }
                    }
                }
            },
        }
        k += 1;
    }
    inbox.resumes.clear();
    proof {
        assert(inbox@ =~= Seq::<Resume>::empty());
        assert(hire_prefix(s0, old(inbox)@, nr as int, cap) == hire_resolve(
            s0,
            old(inbox)@,
            cap,
        ));
    }
}

/// The view of the registry entry at position `k`.
pub open spec fn job_entry_view_at(registry: &JobRegistry, k: int) -> (u64, Seq<RoleModel>) {
    (registry.jobs@[k].0, crate::jobs::job_view(registry.jobs@[k].1))
}

} // verus!
