//! The agent roster: every live agent, with the attributes the labor market
//! reads (age in whole years, if known) and the unemployed tag that marks an
//! agent as eligible to apply.
//!
//! Dangling handles: when an agent dies the simulation removes it here and
//! actively purges it from every role membership (see the tick driver), so
//! vacancy counts never undercount because of dead members.

use vstd::prelude::*;

use crate::seq_util::lemma_seq_keep_map_no_duplicates;
use crate::seq_util::seq_keep;

verus! {

/// An agent's age in whole years.
#[derive(Clone, Copy, Debug, PartialEq, Eq, Structural)]
pub struct Age {
    pub years: u8,
}

/// One live agent, as the labor market sees it: an opaque handle, an age if
/// one is known, and whether the agent is seeking a role.
#[derive(Clone, Copy, Debug, PartialEq, Eq, Structural)]
pub struct Agent {
    pub id: u64,
    pub age: Option<Age>,
    pub unemployed: bool,
}

/// The roster of live agents, in spawn order.
pub struct Roster {
    pub agents: Vec<Agent>,
}

impl View for Roster {
    type V = Seq<Agent>;

    open spec fn view(&self) -> Seq<Agent> {
        self.agents@
    }
}

pub open spec fn agent_id_fn() -> spec_fn(Agent) -> u64 {
    |a: Agent| a.id
}

/// Predicate on agents: the handle differs from `id`.
pub open spec fn agent_ne_pred(id: u64) -> spec_fn(Agent) -> bool {
    |a: Agent| a.id != id
}

/// The roster invariant: agent handles are unique.
pub open spec fn roster_wf(r: Seq<Agent>) -> bool {
    r.map_values(agent_id_fn()).no_duplicates()
}

/// The handle belongs to some live agent.
pub open spec fn roster_has(r: Seq<Agent>, id: u64) -> bool {
    exists|k: int| 0 <= k < r.len() && (#[trigger] r[k]).id == id
}

/// Clearing the unemployed tag of the agent with handle `id`.
pub open spec fn clear_unemployed_fn(id: u64) -> spec_fn(Agent) -> Agent {
    |a: Agent|
        if a.id == id {
            Agent { id: a.id, age: a.age, unemployed: false }
        } else {
            a
        }
}

/// The roster after the agent with handle `id` stops being unemployed.
pub open spec fn roster_clear_unemployed(r: Seq<Agent>, id: u64) -> Seq<Agent> {
    r.map_values(clear_unemployed_fn(id))
}

/// The roster after the agent with handle `id` is removed.
pub open spec fn roster_without(r: Seq<Agent>, id: u64) -> Seq<Agent> {
    seq_keep(r, agent_ne_pred(id))
}

/// How many agents currently carry the unemployed tag.
pub open spec fn count_unemployed(r: Seq<Agent>) -> int
    decreases r.len(),
{
    if r.len() == 0 {
        0
    } else {
        count_unemployed(r.drop_last()) + if r.last().unemployed {
            1int
        } else {
            0int
        }
    }
}

impl Roster {
    /// An empty roster.
    pub fn new() -> (r: Roster)
        ensures
            r@ == Seq::<Agent>::empty(),
            roster_wf(r@),
    {
        let r = Roster { agents: Vec::new() };
        proof {
            assert(r@.map_values(agent_id_fn()) =~= Seq::<u64>::empty());
        }
        r
    }

    /// Whether the handle belongs to a live agent.
    pub fn contains(&self, id: u64) -> (r: bool)
        ensures
            r == roster_has(self@, id),
    {
        let n = self.agents.len();
        let mut k: usize = 0;
        while k < n
            invariant
                0 <= k <= n,
                n == self@.len(),
                forall|t: int| 0 <= t < k ==> (#[trigger] self@[t]).id != id,
            decreases n - k,
        {
            if self.agents[k].id == id {
                return true;
            }
            k += 1;
        }
        false
    }

    /// An agent is born: it joins the roster unemployed. A handle already in
    /// use is a no-op.
    pub fn spawn(&mut self, id: u64, age: Option<Age>) -> (added: bool)
        requires
            roster_wf(old(self)@),
        ensures
            added == !roster_has(old(self)@, id),
            added ==> final(self)@ == old(self)@.push(Agent { id, age, unemployed: true }),
            !added ==> final(self)@ == old(self)@,
            roster_wf(final(self)@),
    {
        if self.contains(id) {
            false
        } else {
            self.agents.push(Agent { id, age, unemployed: true });
            proof {
                let ids = self@.map_values(agent_id_fn());
                assert(ids =~= old(self)@.map_values(agent_id_fn()).push(id));
                assert forall|x: int, y: int| #![trigger ids[x], ids[y]]
                    0 <= x < y < ids.len() implies ids[x] != ids[y] by {
                    if y == ids.len() - 1 {
                        assert(old(self)@[x].id == ids[x]);
                    }
                }
            }
            true
        }
    }

    /// Clear the unemployed tag of the agent with handle `id`; unknown
    /// handles are a no-op.
    pub fn clear_unemployed(&mut self, id: u64)
        ensures
            final(self)@ == roster_clear_unemployed(old(self)@, id),
            roster_wf(old(self)@) ==> roster_wf(final(self)@),
    {
        let n = self.agents.len();
        let mut k: usize = 0;
        while k < n
            invariant
                0 <= k <= n,
                n == self@.len(),
                forall|t: int| 0 <= t < k ==> self@[t] == clear_unemployed_fn(id)(
                    #[trigger] old(self)@[t],
                ),
                forall|t: int| k <= t < n ==> #[trigger] self@[t] == old(self)@[t],
            decreases n - k,
        {
            if self.agents[k].id == id {
                let a = &mut self.agents[k];
                a.unemployed = false;
            }
            k += 1;
        }
        proof {
            assert(self@ =~= roster_clear_unemployed(old(self)@, id));
            let ids = roster_clear_unemployed(old(self)@, id).map_values(agent_id_fn());
            assert(ids =~= old(self)@.map_values(agent_id_fn()));
        }
    }

    /// An agent dies: it leaves the roster; unknown handles are a no-op.
    pub fn remove(&mut self, id: u64)
        ensures
            final(self)@ == roster_without(old(self)@, id),
            roster_wf(old(self)@) ==> roster_wf(final(self)@),
    {
        let n = self.agents.len();
        let mut kept: Vec<Agent> = Vec::new();
        let mut k: usize = 0;
        while k < n
            invariant
                0 <= k <= n,
                n == self@.len(),
                self@ == old(self)@,
                kept@ == roster_without(self@.take(k as int), id),
            decreases n - k,
        {
            let a = self.agents[k];
            proof {
                assert(self@.take(k + 1 as int).drop_last() == self@.take(k as int));
                assert(self@.take(k + 1 as int).last() == self@[k as int]);
            }
            if a.id != id {
                kept.push(a);
            }
            k += 1;
        }
        proof {
            assert(self@.take(n as int) == self@);
        }
        self.agents = kept;
        proof {
            if roster_wf(old(self)@) {
                lemma_seq_keep_map_no_duplicates(old(self)@, agent_id_fn(), agent_ne_pred(id));
            }
        }
    }

    /// How many agents currently carry the unemployed tag.
    pub fn unemployed_count(&self) -> (c: usize)
        ensures
            c == count_unemployed(self@),
    {
        let n = self.agents.len();
        let mut c: usize = 0;
        let mut k: usize = 0;
        while k < n
            invariant
                0 <= k <= n,
                n == self@.len(),
                c <= k,
                c == count_unemployed(self@.take(k as int)),
            decreases n - k,
        {
            proof {
                assert(self@.take(k + 1 as int).drop_last() == self@.take(k as int));
                assert(self@.take(k + 1 as int).last() == self@[k as int]);
            }
            if self.agents[k].unemployed {
                c += 1;
            }
            k += 1;
        }
        proof {
            assert(self@.take(n as int) == self@);
        }
        c
    }

    /// The number of live agents.
    pub fn population(&self) -> (n: usize)
        ensures
            n == self@.len(),
    {
        self.agents.len()
    }
}

} // verus!
