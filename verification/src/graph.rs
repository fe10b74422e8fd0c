//! A small edge store: one value per target handle, with unique keys.

use vstd::prelude::*;

verus! {

/// Values attached to edges toward other entities, keyed by target handle.
pub struct Graph<V> {
    pub edges: Vec<(u64, V)>,
}

/// The keys of the edge list.
pub open spec fn edge_keys<V>(s: Seq<(u64, V)>) -> Seq<u64> {
    s.map_values(|e: (u64, V)| e.0)
}

/// The graph invariant: one edge per target.
pub open spec fn graph_wf<V>(s: Seq<(u64, V)>) -> bool {
    edge_keys(s).no_duplicates()
}

/// The target has an edge.
pub open spec fn graph_has<V>(s: Seq<(u64, V)>, to: u64) -> bool {
    exists|k: int| 0 <= k < s.len() && (#[trigger] s[k]).0 == to
}

/// The position of the edge toward `to`; meaningful under `graph_wf` when
/// `graph_has` holds.
pub open spec fn graph_at<V>(s: Seq<(u64, V)>, to: u64) -> int {
    choose|k: int| 0 <= k < s.len() && (#[trigger] s[k]).0 == to
}

/// Under `graph_wf`, a position holding `to` is the position `graph_at`
/// points to.
proof fn lemma_graph_at_unique<V>(s: Seq<(u64, V)>, to: u64, k: int)
    requires
        graph_wf(s),
        0 <= k < s.len(),
        s[k].0 == to,
    ensures
        graph_has(s, to),
        graph_at(s, to) == k,
{
    assert(graph_has(s, to));
    let t = graph_at(s, to);
    assert(edge_keys(s)[t] == to);
    assert(edge_keys(s)[k] == to);
}

impl<V> Default for Graph<V> {
    /// An empty graph.
    fn default() -> (g: Self)
        ensures
            g.edges@ == Seq::<(u64, V)>::empty(),
            graph_wf(g.edges@),
    {
        let g = Graph { edges: Vec::new() };
        proof {
            assert(edge_keys(g.edges@) =~= Seq::<u64>::empty());
        }
        g
    }
}

impl<V> Graph<V> {
    /// Set the value of the edge toward `to`, replacing any old value.
    pub fn set(&mut self, to: u64, value: V)
        requires
            graph_wf(old(self).edges@),
        ensures
            graph_wf(final(self).edges@),
            final(self).edges@ == if graph_has(old(self).edges@, to) {
                old(self).edges@.update(graph_at(old(self).edges@, to), (to, value))
            } else {
                old(self).edges@.push((to, value))
            },
    {
        let n = self.edges.len();
        let mut k: usize = 0;
        while k < n
            invariant
                0 <= k <= n,
                n == self.edges@.len(),
                self.edges@ == old(self).edges@,
                graph_wf(self.edges@),
                forall|t: int| 0 <= t < k ==> (#[trigger] self.edges@[t]).0 != to,
            decreases n - k,
        {
            if self.edges[k].0 == to {
                proof {
                    lemma_graph_at_unique(self.edges@, to, k as int);
                }
                let ghost before = self.edges@;
                let e = &mut self.edges[k];
                *e = (to, value);
                proof {
                    assert(self.edges@ =~= before.update(k as int, self.edges@[k as int]));
                    assert(edge_keys(self.edges@) =~= edge_keys(before));
                }
                return ;
            }
            k += 1;
        }
        self.edges.push((to, value));
        proof {
            let keys = edge_keys(self.edges@);
            assert(keys =~= edge_keys(old(self).edges@).push(to));
            assert forall|x: int, y: int| #![trigger keys[x], keys[y]]
                0 <= x < y < keys.len() implies keys[x] != keys[y] by {
                if y == keys.len() - 1 {
                    assert(old(self).edges@[x].0 == keys[x]);
                }
            }
        }
    }

    /// The value of the edge toward `to`, if any.
    pub fn get(&self, to: &u64) -> (r: Option<&V>)
        requires
            graph_wf(self.edges@),
        ensures
            match r {
                Some(v) => graph_has(self.edges@, *to) && *v == self.edges@[graph_at(
                    self.edges@,
                    *to,
                )].1,
                None => !graph_has(self.edges@, *to),
            },
    {
        let n = self.edges.len();
        let mut k: usize = 0;
        while k < n
            invariant
                0 <= k <= n,
                n == self.edges@.len(),
                graph_wf(self.edges@),
                forall|t: int| 0 <= t < k ==> (#[trigger] self.edges@[t]).0 != *to,
            decreases n - k,
        {
            if self.edges[k].0 == *to {
                proof {
                    lemma_graph_at_unique(self.edges@, *to, k as int);
                }
                return Some(&self.edges[k].1);
            }
            k += 1;
        }
        None
    }

    /// A mutable borrow of the value of the edge toward `to`, if any.
    pub fn get_mut(&mut self, to: &u64) -> (r: Option<&mut V>)
        requires
            graph_wf(old(self).edges@),
        ensures
            graph_wf(final(self).edges@),
            match r {
                Some(v) => graph_has(old(self).edges@, *to) && *v == old(self).edges@[graph_at(
                    old(self).edges@,
                    *to,
                )].1 && final(self).edges@ == old(self).edges@.update(
                    graph_at(old(self).edges@, *to),
                    (*to, *final(v)),
                ),
                None => !graph_has(old(self).edges@, *to) && final(self).edges@ == old(
                    self,
                ).edges@,
            },
    {
        let n = self.edges.len();
        let mut k: usize = 0;
        while k < n
            invariant
                0 <= k <= n,
                n == self.edges@.len(),
                self.edges@ == old(self).edges@,
                graph_wf(self.edges@),
                forall|t: int| 0 <= t < k ==> (#[trigger] self.edges@[t]).0 != *to,
            decreases n - k,
        {
            if self.edges[k].0 == *to {
                proof {
                    lemma_graph_at_unique(self.edges@, *to, k as int);
                }
                let e = &mut self.edges[k];
                proof {
                    let keys1 = edge_keys(old(self).edges@);
                    let keys2 = edge_keys(
                        old(self).edges@.update(k as int, (*to, after_borrow(self).edges@[k as int].1)),
                    );
                    assert(keys2 =~= keys1);
                }
                return Some(&mut e.1);
            }
            k += 1;
        }
        None
    }

    /// A mutable borrow of the value of the edge toward `to`, creating the
    /// edge with `make` when it is missing.
    pub fn ensure_with<F: FnOnce() -> V>(&mut self, to: u64, make: F) -> (r: &mut V)
        requires
            graph_wf(old(self).edges@),
            call_requires(make, ()),
        ensures
            graph_has(old(self).edges@, to) ==> *r == old(self).edges@[graph_at(
                old(self).edges@,
                to,
            )].1 && final(self).edges@ == old(self).edges@.update(
                graph_at(old(self).edges@, to),
                (to, *final(r)),
            ) && graph_wf(final(self).edges@),
            !graph_has(old(self).edges@, to) ==> call_ensures(make, (), *r) && final(self).edges@
                == old(self).edges@.push((to, *final(r))) && graph_wf(final(self).edges@),
    {
        let n = self.edges.len();
        let mut k: usize = 0;
        while k < n
            invariant
                0 <= k <= n,
                n == self.edges@.len(),
                self.edges@ == old(self).edges@,
                graph_wf(self.edges@),
                forall|t: int| 0 <= t < k ==> (#[trigger] self.edges@[t]).0 != to,
            decreases n - k,
        {
            if self.edges[k].0 == to {
                proof {
                    lemma_graph_at_unique(self.edges@, to, k as int);
                }
                proof {
                    assert forall|x: V| graph_wf(
                        #[trigger] old(self).edges@.update(k as int, (to, x)),
                    ) by {
                        let keys1 = edge_keys(old(self).edges@);
                        let keys2 = edge_keys(old(self).edges@.update(k as int, (to, x)));
                        assert(keys2 =~= keys1);
                    }
                }
                let e = &mut self.edges[k];
                return &mut e.1;
            }
            k += 1;
        }
        let v = make();
        self.edges.push((to, v));
        proof {
            let keys = edge_keys(self.edges@);
            assert(keys =~= edge_keys(old(self).edges@).push(to));
            assert forall|x: int, y: int| #![trigger keys[x], keys[y]]
                0 <= x < y < keys.len() implies keys[x] != keys[y] by {
                if y == keys.len() - 1 {
                    assert(old(self).edges@[x].0 == keys[x]);
                }
            }
        }
        let idx = self.edges.len() - 1;
        proof {
            assert forall|x: V| graph_wf(#[trigger] old(self).edges@.push((to, x))) by {
                let keys2 = edge_keys(old(self).edges@.push((to, x)));
                assert(keys2 =~= edge_keys(old(self).edges@).push(to));
                assert forall|a: int, b: int| #![trigger keys2[a], keys2[b]]
                    0 <= a < b < keys2.len() implies keys2[a] != keys2[b] by {
                    if b == keys2.len() - 1 {
                        assert(old(self).edges@[a].0 == keys2[a]);
                    }
                }
            }
        }
        let e = &mut self.edges[idx];
        &mut e.1
    }

    /// Remove the edge toward `to` and return its value, if any.
    pub fn remove(&mut self, to: &u64) -> (r: Option<V>)
        requires
            graph_wf(old(self).edges@),
        ensures
            graph_wf(final(self).edges@),
            match r {
                Some(v) => graph_has(old(self).edges@, *to) && v == old(self).edges@[graph_at(
                    old(self).edges@,
                    *to,
                )].1 && final(self).edges@ == old(self).edges@.remove(
                    graph_at(old(self).edges@, *to),
                ),
                None => !graph_has(old(self).edges@, *to) && final(self).edges@ == old(
                    self,
                ).edges@,
            },
    {
        let n = self.edges.len();
        let mut k: usize = 0;
        while k < n
            invariant
                0 <= k <= n,
                n == self.edges@.len(),
                self.edges@ == old(self).edges@,
                graph_wf(self.edges@),
                forall|t: int| 0 <= t < k ==> (#[trigger] self.edges@[t]).0 != *to,
            decreases n - k,
        {
            if self.edges[k].0 == *to {
                proof {
                    lemma_graph_at_unique(self.edges@, *to, k as int);
                }
                let ghost before = self.edges@;
                let e = self.edges.remove(k);
                proof {
                    let keys1 = edge_keys(before);
                    let keys2 = edge_keys(self.edges@);
                    assert(keys2 =~= keys1.remove(k as int));
                    assert forall|x: int, y: int| #![trigger keys2[x], keys2[y]]
                        0 <= x < y < keys2.len() implies keys2[x] != keys2[y] by {
                        let x1 = if x < k as int {
                            x
                        } else {
                            x + 1
                        };
                        let y1 = if y < k as int {
                            y
                        } else {
                            y + 1
                        };
                        assert(keys2[x] == keys1[x1]);
                        assert(keys2[y] == keys1[y1]);
                    }
                }
                return Some(e.1);
            }
            k += 1;
        }
        None
    }
}

} // verus!
