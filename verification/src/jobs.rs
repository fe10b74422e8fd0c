//! Job definitions: roles with seat bounds, eligibility constraints, and
//! current membership, plus the registry that stores jobs by handle.

use vstd::prelude::*;

use crate::seq_util::lemma_seq_keep_all;
use crate::seq_util::lemma_seq_keep_elements;
use crate::seq_util::seq_keep;

verus! {

/// Declarative eligibility constraints for a role. Pure data; a role's
/// constraints are evaluated as a conjunction.
#[derive(Clone, Copy, Debug, PartialEq, Eq, Structural)]
pub enum Constraint {
    AgeLessThan(u8),
    AgeAtLeast(u8),
}

/// A role definition inside a `Job`: seat bounds plus constraints.
#[derive(Clone, Debug)]
pub struct RoleSpec {
    pub min: u32,
    pub max: u32,
    pub constraints: Vec<Constraint>,
}

/// A `Job` is an ordered list of role definitions, each paired with the
/// handles of its current members.
pub struct Job {
    pub roles: Vec<(RoleSpec, Vec<u64>)>,
}

/// Mathematical model of one role: its definition and its membership.
pub struct RoleModel {
    pub min: u32,
    pub max: u32,
    pub constraints: Seq<Constraint>,
    pub members: Seq<u64>,
}

pub open spec fn role_view(r: (RoleSpec, Vec<u64>)) -> RoleModel {
    RoleModel { min: r.0.min, max: r.0.max, constraints: r.0.constraints@, members: r.1@ }
}

pub open spec fn job_view(j: Job) -> Seq<RoleModel> {
    j.roles@.map_values(|r: (RoleSpec, Vec<u64>)| role_view(r))
}

/// Unmet minimum seats of a role: `max(0, min - current members)`.
pub open spec fn spec_vacancy(r: RoleModel) -> int {
    if r.members.len() < r.min {
        r.min - r.members.len()
    } else {
        0
    }
}

/// Current vacancy of a role, as stored in a `Job`.
pub fn vacancy(role: &(RoleSpec, Vec<u64>)) -> (v: u32)
    ensures
        v == spec_vacancy(role_view(*role)),
{
    let n = role.1.len();
    if n >= role.0.min as usize {
        0
    } else {
        role.0.min - n as u32
    }
}

/// Mathematical model of the registry: (handle, roles) entries in insertion
/// order.
pub type RegModel = Seq<(u64, Seq<RoleModel>)>;

/// The job registry: job definitions stored by handle. Leaf data store.
pub struct JobRegistry {
    pub jobs: Vec<(u64, Job)>,
}

pub open spec fn job_entry_view_fn() -> spec_fn((u64, Job)) -> (u64, Seq<RoleModel>) {
    |e: (u64, Job)| (e.0, job_view(e.1))
}

impl View for JobRegistry {
    type V = RegModel;

    open spec fn view(&self) -> RegModel {
        self.jobs@.map_values(job_entry_view_fn())
    }
}

pub open spec fn reg_key_fn() -> spec_fn((u64, Seq<RoleModel>)) -> u64 {
    |e: (u64, Seq<RoleModel>)| e.0
}

/// The registry invariant: job handles are unique.
pub open spec fn reg_wf(reg: RegModel) -> bool {
    reg.map_values(reg_key_fn()).no_duplicates()
}

/// The handle resolves to some job.
pub open spec fn reg_has(reg: RegModel, jid: u64) -> bool {
    exists|k: int| 0 <= k < reg.len() && (#[trigger] reg[k]).0 == jid
}

/// The position of the job with handle `jid`; meaningful under `reg_wf`
/// when `reg_has` holds.
pub open spec fn reg_at(reg: RegModel, jid: u64) -> int {
    choose|k: int| 0 <= k < reg.len() && (#[trigger] reg[k]).0 == jid
}

/// The roles of the job with handle `jid`.
pub open spec fn reg_roles(reg: RegModel, jid: u64) -> Seq<RoleModel> {
    reg[reg_at(reg, jid)].1
}

/// No role of the job holds more members than its maximum seat count.
pub open spec fn roles_cap_ok(roles: Seq<RoleModel>) -> bool {
    forall|i: int| 0 <= i < roles.len() ==> (#[trigger] roles[i]).members.len() <= roles[i].max
}

/// The capacity bound holds for every job in the registry.
pub open spec fn reg_cap_ok(reg: RegModel) -> bool {
    forall|k: int| 0 <= k < reg.len() ==> roles_cap_ok((#[trigger] reg[k]).1)
}

/// Under `reg_wf`, a position holding `jid` is the position `reg_at`
/// points to.
pub proof fn lemma_reg_at_unique(reg: RegModel, jid: u64, k: int)
    requires
        reg_wf(reg),
        0 <= k < reg.len(),
        reg[k].0 == jid,
    ensures
        reg_has(reg, jid),
        reg_at(reg, jid) == k,
{
    assert(reg_has(reg, jid));
    let t = reg_at(reg, jid);
    assert(reg.map_values(reg_key_fn())[t] == jid);
    assert(reg.map_values(reg_key_fn())[k] == jid);
}

impl JobRegistry {
    /// An empty registry.
    pub fn new() -> (r: JobRegistry)
        ensures
            r@ == Seq::<(u64, Seq<RoleModel>)>::empty(),
            reg_wf(r@),
            reg_cap_ok(r@),
    {
        let r = JobRegistry { jobs: Vec::new() };
        proof {
            assert(r@ =~= Seq::<(u64, Seq<RoleModel>)>::empty());
        }
        r
    }

    /// The position of the job with handle `jid`, if any.
    pub fn find(&self, jid: u64) -> (r: Option<usize>)
        requires
            reg_wf(self@),
        ensures
            match r {
                Some(k) => reg_has(self@, jid) && k < self@.len() && k as int == reg_at(
                    self@,
                    jid,
                ),
                None => !reg_has(self@, jid),
            },
    {
        let n = self.jobs.len();
        let mut k: usize = 0;
        while k < n
            invariant
                0 <= k <= n,
                n == self@.len(),
                reg_wf(self@),
                forall|t: int| 0 <= t < k ==> (#[trigger] self@[t]).0 != jid,
            decreases n - k,
        {
            if self.jobs[k].0 == jid {
                proof {
                    assert(self@[k as int].0 == jid);
                    lemma_reg_at_unique(self@, jid, k as int);
                }
                return Some(k);
            }
            proof {
                assert(self@[k as int].0 == self.jobs@[k as int].0);
            }
            k += 1;
        }
        None
    }

    /// Store a job under a fresh handle; an already-used handle is a no-op.
    pub fn add_job(&mut self, jid: u64, job: Job) -> (added: bool)
        requires
            reg_wf(old(self)@),
        ensures
            added == !reg_has(old(self)@, jid),
            added ==> final(self)@ == old(self)@.push((jid, job_view(job))),
            !added ==> final(self)@ == old(self)@,
            reg_wf(final(self)@),
    {
        match self.find(jid) {
            Some(_) => false,
            None => {
                proof {
                    let reg2 = self@.push((jid, job_view(job)));
                    assert(reg2.map_values(reg_key_fn()) =~= self@.map_values(
                        reg_key_fn(),
                    ).push(jid));
                }
                self.jobs.push((jid, job));
                proof {
                    assert(self@ =~= old(self)@.push((jid, job_view(job))));
                    let keys = self@.map_values(reg_key_fn());
                    assert(keys =~= old(self)@.map_values(reg_key_fn()).push(jid));
                    assert forall|x: int, y: int| #![trigger keys[x], keys[y]]
                        0 <= x < y < keys.len() implies keys[x] != keys[y] by {
                        if y == keys.len() - 1 {
                            assert(old(self)@[x].0 == keys[x]);
                        }
                    }
                }
                true
            },
        }
    }

    /// Purge a dead agent's handle from every role membership, and return
    /// the handles of the jobs whose membership changed, in registry order.
    pub fn purge_member(&mut self, id: u64) -> (changed: Vec<u64>)
        ensures
            final(self)@ == reg_purged(old(self)@, id),
            changed@ == seq_keep(old(self)@, mentions_pred(id)).map_values(reg_key_fn()),
            reg_wf(old(self)@) ==> reg_wf(final(self)@),
    {
        let nj = self.jobs.len();
        let mut changed: Vec<u64> = Vec::new();
        let mut k: usize = 0;
        while k < nj
            invariant
                0 <= k <= nj,
                nj == self.jobs@.len(),
                self.jobs@.len() == old(self).jobs@.len(),
                forall|t: int| k <= t < nj ==> #[trigger] self.jobs@[t] == old(self).jobs@[t],
                forall|t: int|
                    0 <= t < k ==> (#[trigger] self.jobs@[t]).0 == old(self).jobs@[t].0
                        && job_view(self.jobs@[t].1) == job_view(old(self).jobs@[t].1).map_values(
                        purge_role_fn(id),
                    ),
                changed@ == seq_keep(old(self)@.take(k as int), mentions_pred(id)).map_values(
                    reg_key_fn(),
                ),
            decreases nj - k,
        {
            let jid = self.jobs[k].0;
            let nroles = self.jobs[k].1.roles.len();
            let mut any = false;
            let mut i: usize = 0;
            while i < nroles
                invariant
                    0 <= i <= nroles,
                    0 <= k < nj,
                    nj == self.jobs@.len(),
                    self.jobs@.len() == old(self).jobs@.len(),
                    nroles == old(self).jobs@[k as int].1.roles@.len(),
                    self.jobs@[k as int].1.roles@.len() == nroles,
                    jid == old(self).jobs@[k as int].0,
                    self.jobs@[k as int].0 == jid,
                    forall|t: int| k < t < nj ==> #[trigger] self.jobs@[t] == old(self).jobs@[t],
                    forall|t: int|
                        0 <= t < k ==> (#[trigger] self.jobs@[t]).0 == old(self).jobs@[t].0
                            && job_view(self.jobs@[t].1) == job_view(
                            old(self).jobs@[t].1,
                        ).map_values(purge_role_fn(id)),
                    forall|t: int|
                        0 <= t < i ==> role_view(#[trigger] self.jobs@[k as int].1.roles@[t])
                            == purge_role_fn(id)(
                            role_view(old(self).jobs@[k as int].1.roles@[t]),
                        ),
                    forall|t: int|
                        i <= t < nroles ==> #[trigger] self.jobs@[k as int].1.roles@[t] == old(
                            self,
                        ).jobs@[k as int].1.roles@[t],
                    any == (exists|t: int|
                        0 <= t < i && role_view(
                            #[trigger] old(self).jobs@[k as int].1.roles@[t],
                        ).members.contains(id)),
                decreases nroles - i,
            {
                let has = member_of(&self.jobs[k].1.roles[i].1, id);
                if has {
                    let new_members = purge_members(&self.jobs[k].1.roles[i].1, id);
                    let ghost roles_before = self.jobs@[k as int].1.roles@;
                    let roleref = &mut self.jobs[k].1.roles[i];
                    roleref.1 = new_members;
                    any = true;
                    proof {
                        let tuple_before = roles_before[i as int];
                        let tuple_after = self.jobs@[k as int].1.roles@[i as int];
                        assert(tuple_after.0 == tuple_before.0);
                        assert(self.jobs@[k as int].1.roles@ =~= roles_before.update(
                            i as int,
                            tuple_after,
                        ));
                        assert(role_view(tuple_after) == purge_role_fn(id)(
                            role_view(old(self).jobs@[k as int].1.roles@[i as int]),
                        ));
                        assert(old(self).jobs@[k as int].1.roles@[i as int].1@.contains(id));
                    }
                } else {
                    proof {
                        let r0 = role_view(old(self).jobs@[k as int].1.roles@[i as int]);
                        lemma_seq_keep_all(r0.members, member_ne_pred(id));
                        assert(purge_role_fn(id)(r0) == r0);
                    }
                }
                i += 1;
            }
            proof {
                assert(job_view(self.jobs@[k as int].1) =~= job_view(
                    old(self).jobs@[k as int].1,
                ).map_values(purge_role_fn(id)));
                let entry = old(self)@[k as int];
                assert(entry.1 == job_view(old(self).jobs@[k as int].1));
                assert forall|t: int|
                    0 <= t < nroles implies ((#[trigger] entry.1[t]).members.contains(id)
                    == role_view(old(self).jobs@[k as int].1.roles@[t]).members.contains(id)) by {
                    assert(entry.1[t] == role_view(old(self).jobs@[k as int].1.roles@[t]));
                }
                assert(entry.1.len() == nroles);
                if any {
                    let t = choose|t: int|
                        0 <= t < i && role_view(
                            #[trigger] old(self).jobs@[k as int].1.roles@[t],
                        ).members.contains(id);
                    assert(entry.1[t].members.contains(id));
                    assert(entry_mentions(entry, id));
                } else {
                    if entry_mentions(entry, id) {
                        let t = choose|t: int|
                            0 <= t < entry.1.len() && (#[trigger] entry.1[t]).members.contains(id);
                        assert(role_view(old(self).jobs@[k as int].1.roles@[t]).members.contains(
                            id,
                        ));
                        assert(false);
                    }
                }
                assert(entry_mentions(entry, id) == any);
                assert(old(self)@.take(k + 1 as int).drop_last() == old(self)@.take(k as int));
                assert(old(self)@.take(k + 1 as int).last() == old(self)@[k as int]);
            }
            if any {
                changed.push(jid);
                proof {
                    assert(old(self)@[k as int].0 == jid);
                    assert(seq_keep(old(self)@.take(k + 1 as int), mentions_pred(id)).map_values(
                        reg_key_fn(),
                    ) =~= changed@);
                }
            } else {
                proof {
                    assert(seq_keep(old(self)@.take(k + 1 as int), mentions_pred(id)).map_values(
                        reg_key_fn(),
                    ) =~= changed@);
                }
            }
            k += 1;
        }
        proof {
            assert(old(self)@.take(nj as int) == old(self)@);
            assert(self@ =~~= reg_purged(old(self)@, id));
            if reg_wf(old(self)@) {
                let keys1 = old(self)@.map_values(reg_key_fn());
                let keys2 = reg_purged(old(self)@, id).map_values(reg_key_fn());
                assert(keys2 =~= keys1);
            }
        }
        changed
    }
}

/// Predicate on member handles: differs from `id`.
pub open spec fn member_ne_pred(id: u64) -> spec_fn(u64) -> bool {
    |x: u64| x != id
}

/// A role with every occurrence of handle `id` removed from its members.
pub open spec fn purge_role_fn(id: u64) -> spec_fn(RoleModel) -> RoleModel {
    |r: RoleModel|
        RoleModel {
            min: r.min,
            max: r.max,
            constraints: r.constraints,
            members: seq_keep(r.members, member_ne_pred(id)),
        }
}

/// A registry entry with handle `id` purged from every role.
pub open spec fn purge_entry_fn(id: u64) -> spec_fn((u64, Seq<RoleModel>)) -> (
    u64,
    Seq<RoleModel>,
) {
    |e: (u64, Seq<RoleModel>)| (e.0, e.1.map_values(purge_role_fn(id)))
}

/// The registry with handle `id` purged from every membership list.
pub open spec fn reg_purged(reg: RegModel, id: u64) -> RegModel {
    reg.map_values(purge_entry_fn(id))
}

/// Some role of the entry holds handle `id`.
pub open spec fn entry_mentions(e: (u64, Seq<RoleModel>), id: u64) -> bool {
    exists|i: int| 0 <= i < e.1.len() && (#[trigger] e.1[i]).members.contains(id)
}

pub open spec fn mentions_pred(id: u64) -> spec_fn((u64, Seq<RoleModel>)) -> bool {
    |e: (u64, Seq<RoleModel>)| entry_mentions(e, id)
}

/// Purging keeps handles, role counts, and role definitions, and never
/// grows a membership.
pub proof fn lemma_reg_purged_facts(reg: RegModel, id: u64)
    ensures
        reg_purged(reg, id).len() == reg.len(),
        forall|k: int|
            0 <= k < reg.len() ==> (#[trigger] reg_purged(reg, id)[k]).0 == reg[k].0
                && reg_purged(reg, id)[k].1.len() == reg[k].1.len(),
        forall|k: int, i: int|
            0 <= k < reg.len() && 0 <= i < reg[k].1.len() ==> ((#[trigger] reg_purged(
                reg,
                id,
            )[k].1[i]).min == reg[k].1[i].min && reg_purged(reg, id)[k].1[i].max
                == reg[k].1[i].max && reg_purged(reg, id)[k].1[i].constraints
                == reg[k].1[i].constraints && reg_purged(reg, id)[k].1[i].members.len()
                <= reg[k].1[i].members.len()),
{
    assert forall|k: int, i: int|
        0 <= k < reg.len() && 0 <= i < reg[k].1.len() implies ((#[trigger] reg_purged(
        reg,
        id,
    )[k].1[i]).min == reg[k].1[i].min && reg_purged(reg, id)[k].1[i].max == reg[k].1[i].max
        && reg_purged(reg, id)[k].1[i].constraints == reg[k].1[i].constraints && reg_purged(
        reg,
        id,
    )[k].1[i].members.len() <= reg[k].1[i].members.len()) by {
        lemma_seq_keep_elements(reg[k].1[i].members, member_ne_pred(id));
    }
}

/// Whether the handle `id` occurs among `members`.
pub fn member_of(members: &Vec<u64>, id: u64) -> (r: bool)
    ensures
        r == members@.contains(id),
{
    let n = members.len();
    let mut k: usize = 0;
    while k < n
        invariant
            0 <= k <= n,
            n == members@.len(),
            forall|t: int| 0 <= t < k ==> members@[t] != id,
        decreases n - k,
    {
        if members[k] == id {
            return true;
        }
        k += 1;
    }
    false
}

/// A copy of `members` without every occurrence of `id`.
fn purge_members(members: &Vec<u64>, id: u64) -> (out: Vec<u64>)
    ensures
        out@ == seq_keep(members@, member_ne_pred(id)),
{
    let n = members.len();
    let mut out: Vec<u64> = Vec::new();
    let mut k: usize = 0;
    while k < n
        invariant
            0 <= k <= n,
            n == members@.len(),
            out@ == seq_keep(members@.take(k as int), member_ne_pred(id)),
        decreases n - k,
    {
        proof {
            assert(members@.take(k + 1 as int).drop_last() == members@.take(k as int));
            assert(members@.take(k + 1 as int).last() == members@[k as int]);
        }
        let m = members[k];
        if m != id {
            out.push(m);
        }
        k += 1;
    }
    proof {
        assert(members@.take(n as int) == members@);
    }
    out
}

/// Fluent builder for a `Job`.
pub struct JobBuilder {
    pub roles: Vec<(RoleSpec, Vec<u64>)>,
    pub current: Option<usize>,
}

pub open spec fn builder_view(b: JobBuilder) -> Seq<RoleModel> {
    b.roles@.map_values(|r: (RoleSpec, Vec<u64>)| role_view(r))
}

impl Job {
    pub fn builder() -> (b: JobBuilder)
        ensures
            builder_view(b) == Seq::<RoleModel>::empty(),
            b.current is None,
    {
        JobBuilder { roles: Vec::new(), current: None }
    }
}

impl JobBuilder {
    /// Start a new role with seat bounds; it becomes the current role.
    pub fn add_role(self, min: u32, max: u32) -> (out: Self)
        ensures
            builder_view(out) == builder_view(self).push(
                RoleModel { min, max, constraints: Seq::empty(), members: Seq::empty() },
            ),
            out.current == Some((builder_view(self).len()) as usize),
    {
        let mut s = self;
        s.roles.push((RoleSpec { min, max, constraints: Vec::new() }, Vec::new()));
        s.current = Some(s.roles.len() - 1);
        s
    }

    /// Attach a constraint to the most recently added role; without a current
    /// role this does nothing.
    pub fn with_constraint(self, c: Constraint) -> (out: Self)
        ensures
            out.current == self.current,
            match self.current {
                Some(i) => i < builder_view(self).len() ==> builder_view(out)
                    == builder_view(self).update(
                    i as int,
                    RoleModel {
                        constraints: builder_view(self)[i as int].constraints.push(c),
                        ..builder_view(self)[i as int]
                    },
                ),
                None => builder_view(out) == builder_view(self),
            },
            self.current matches Some(i) && i >= builder_view(self).len() ==> builder_view(out)
                == builder_view(self),
    {
        let mut s = self;
        match s.current {
            Some(i) => {
                if i < s.roles.len() {
                    s.roles[i].0.constraints.push(c);
                }
            },
            None => {},
        }
        s
    }

    /// Require that a member's age is strictly below `n` years.
    pub fn age_lt(self, n: u8) -> (out: Self)
        ensures
            out.current == self.current,
            match self.current {
                Some(i) => i < builder_view(self).len() ==> builder_view(out)
                    == builder_view(self).update(
                    i as int,
                    RoleModel {
                        constraints: builder_view(self)[i as int].constraints.push(
                            Constraint::AgeLessThan(n),
                        ),
                        ..builder_view(self)[i as int]
                    },
                ),
                None => builder_view(out) == builder_view(self),
            },
    {
        self.with_constraint(Constraint::AgeLessThan(n))
    }

    /// Require that a member's age is at least `n` years.
    pub fn age_gte(self, n: u8) -> (out: Self)
        ensures
            out.current == self.current,
            match self.current {
                Some(i) => i < builder_view(self).len() ==> builder_view(out)
                    == builder_view(self).update(
                    i as int,
                    RoleModel {
                        constraints: builder_view(self)[i as int].constraints.push(
                            Constraint::AgeAtLeast(n),
                        ),
                        ..builder_view(self)[i as int]
                    },
                ),
                None => builder_view(out) == builder_view(self),
            },
    {
        self.with_constraint(Constraint::AgeAtLeast(n))
    }

    /// Finalize into a `Job`.
    pub fn build(self) -> (j: Job)
        ensures
            job_view(j) == builder_view(self),
    {
        Job { roles: self.roles }
    }
}

} // verus!
