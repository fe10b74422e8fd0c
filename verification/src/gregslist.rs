//! The vacancy board: an ordered list of live adverts plus a set index of
//! (job, role index) pairs used as an existence guard, and the maintenance
//! pass that expires adverts past their time-to-live.

use vstd::prelude::*;

use crate::seq_util::lemma_seq_keep_contains;
use crate::seq_util::lemma_seq_keep_elements;
use crate::seq_util::lemma_seq_keep_map_no_duplicates;
use crate::seq_util::lemma_seq_keep_no_duplicates;
use crate::seq_util::seq_keep;

verus! {

/// One currently-open (job, role) pair, with its posting timestamp in
/// seconds.
#[derive(Clone, Copy, Debug, PartialEq, Eq, Structural)]
pub struct Advert {
    pub job: u64,
    pub role_index: usize,
    pub date_posted: u64,
}

/// Board maintenance knobs: adverts older than `expiry_secs` are retracted
/// and reconsidered.
#[derive(Clone, Copy, Debug, PartialEq, Eq, Structural)]
pub struct GregslistConfig {
    pub expiry_secs: u64,
}

/// Notification that a job's advert state should be re-derived.
#[derive(Clone, Copy, Debug, PartialEq, Eq, Structural)]
pub struct VacancyDirty {
    pub job: u64,
}

/// The vacancy board: live adverts in posting order, and the existence index.
pub struct Gregslist {
    pub ads: Vec<Advert>,
    pub index: Vec<(u64, usize)>,
}

/// Mathematical model of the board.
pub struct BoardModel {
    pub ads: Seq<Advert>,
    pub index: Seq<(u64, usize)>,
}

impl View for Gregslist {
    type V = BoardModel;

    open spec fn view(&self) -> BoardModel {
        BoardModel { ads: self.ads@, index: self.index@ }
    }
}

pub open spec fn ad_key(ad: Advert) -> (u64, usize) {
    (ad.job, ad.role_index)
}

/// `ad_key` as a function value, for use with `map_values`.
pub open spec fn ad_key_fn() -> spec_fn(Advert) -> (u64, usize) {
    |ad: Advert| ad_key(ad)
}

/// Predicate on adverts: the key differs from `p`.
pub open spec fn key_ne_pred(p: (u64, usize)) -> spec_fn(Advert) -> bool {
    |ad: Advert| ad_key(ad) != p
}

/// Predicate on index pairs: the pair differs from `p`.
pub open spec fn pair_ne_pred(p: (u64, usize)) -> spec_fn((u64, usize)) -> bool {
    |q: (u64, usize)| q != p
}

/// Some live advert carries the pair `p`.
pub open spec fn advertised(ads: Seq<Advert>, p: (u64, usize)) -> bool {
    exists|k: int| 0 <= k < ads.len() && ad_key(ads[k]) == p
}

/// The board invariant: at most one advert per (job, role index), and the
/// index and the advert list agree in membership — no orphan index entries,
/// no un-indexed adverts.
pub open spec fn board_wf(b: BoardModel) -> bool {
    &&& b.index.no_duplicates()
    &&& b.ads.map_values(ad_key_fn()).no_duplicates()
    &&& forall|i: int| 0 <= i < b.index.len() ==> advertised(b.ads, #[trigger] b.index[i])
    &&& forall|k: int| 0 <= k < b.ads.len() ==> b.index.contains(ad_key(#[trigger] b.ads[k]))
}

/// Agreement law: on a well-formed board — which every operation
/// establishes — the existence index and the advert list carry exactly
/// the same (job, role index) pairs: no orphan index entries, no
/// un-indexed adverts.
pub proof fn lemma_board_agreement(b: BoardModel)
    requires
        board_wf(b),
    ensures
        forall|p: (u64, usize)| #[trigger] b.index.contains(p) <==> advertised(b.ads, p),
{
    assert forall|p: (u64, usize)| #[trigger] b.index.contains(p) <==> advertised(b.ads, p) by {
        if b.index.contains(p) {
            let t = choose|t: int| 0 <= t < b.index.len() && b.index[t] == p;
            assert(advertised(b.ads, b.index[t]));
        }
        if advertised(b.ads, p) {
            let k = choose|k: int| 0 <= k < b.ads.len() && ad_key(b.ads[k]) == p;
            assert(b.index.contains(ad_key(b.ads[k])));
        }
    }
}

/// Every advert was posted at or before `t`.
pub open spec fn posted_by(ads: Seq<Advert>, t: u64) -> bool {
    forall|k: int| 0 <= k < ads.len() ==> (#[trigger] ads[k]).date_posted <= t
}

/// The advert list without the pair `p`.
pub open spec fn ads_without(ads: Seq<Advert>, p: (u64, usize)) -> Seq<Advert> {
    seq_keep(ads, key_ne_pred(p))
}

/// The index without the pair `p`.
pub open spec fn index_without(index: Seq<(u64, usize)>, p: (u64, usize)) -> Seq<(u64, usize)> {
    seq_keep(index, pair_ne_pred(p))
}

/// One reconciliation step for the role `i` of job `jid`: post an advert if
/// the role is vacant and not yet advertised, retract it if the role is no
/// longer vacant, otherwise leave the board alone.
pub open spec fn reconcile_role(
    b: BoardModel,
    jid: u64,
    i: usize,
    vacant: bool,
    now: u64,
) -> BoardModel {
    let p = (jid, i);
    if vacant {
        if b.index.contains(p) {
            b
        } else {
            BoardModel {
                ads: b.ads.push(Advert { job: jid, role_index: i, date_posted: now }),
                index: b.index.push(p),
            }
        }
    } else {
        if b.index.contains(p) {
            BoardModel { ads: ads_without(b.ads, p), index: index_without(b.index, p) }
        } else {
            b
        }
    }
}

/// An advert posted at `ad.date_posted` is still live at `now` under the
/// time-to-live `ttl`.
pub open spec fn is_fresh(ad: Advert, now: u64, ttl: u64) -> bool {
    now - ad.date_posted <= ttl
}

pub open spec fn fresh_pred(now: u64, ttl: u64) -> spec_fn(Advert) -> bool {
    |ad: Advert| is_fresh(ad, now, ttl)
}

pub open spec fn stale_pred(now: u64, ttl: u64) -> spec_fn(Advert) -> bool {
    |ad: Advert| !is_fresh(ad, now, ttl)
}

/// The adverts that survive an expiry sweep at `now`.
pub open spec fn expire_kept(ads: Seq<Advert>, now: u64, ttl: u64) -> Seq<Advert> {
    seq_keep(ads, fresh_pred(now, ttl))
}

/// The adverts that an expiry sweep at `now` drops, in board order.
pub open spec fn expire_removed(ads: Seq<Advert>, now: u64, ttl: u64) -> Seq<Advert> {
    seq_keep(ads, stale_pred(now, ttl))
}

/// The (job, role index) pairs of the dropped adverts.
pub open spec fn expire_pairs(ads: Seq<Advert>, now: u64, ttl: u64) -> Seq<(u64, usize)> {
    expire_removed(ads, now, ttl).map_values(ad_key_fn())
}

pub open spec fn dirty_of_fn() -> spec_fn(Advert) -> VacancyDirty {
    |ad: Advert| VacancyDirty { job: ad.job }
}

/// The vacancy-changed notifications that the sweep emits, one per dropped
/// advert, in board order.
pub open spec fn expire_dirty(ads: Seq<Advert>, now: u64, ttl: u64) -> Seq<VacancyDirty> {
    expire_removed(ads, now, ttl).map_values(dirty_of_fn())
}

pub open spec fn not_removed_pred(ads: Seq<Advert>, now: u64, ttl: u64) -> spec_fn(
    (u64, usize),
) -> bool {
    |q: (u64, usize)| !expire_pairs(ads, now, ttl).contains(q)
}

/// The board after an expiry sweep at `now`: stale adverts leave the list,
/// and their pairs leave the index.
pub open spec fn expire_board(b: BoardModel, now: u64, ttl: u64) -> BoardModel {
    BoardModel {
        ads: expire_kept(b.ads, now, ttl),
        index: seq_keep(b.index, not_removed_pred(b.ads, now, ttl)),
    }
}

/// The expiry sweep preserves the board invariant, keeps only adverts
/// already posted by `t`, and leaves the index membership of exactly the
/// fresh adverts' pairs.
pub proof fn lemma_expire_board_wf(b: BoardModel, now: u64, ttl: u64)
    requires
        board_wf(b),
    ensures
        board_wf(expire_board(b, now, ttl)),
        forall|t: u64| posted_by(b.ads, t) ==> posted_by(expire_board(b, now, ttl).ads, t),
{
    let fresh = fresh_pred(now, ttl);
    let stale = stale_pred(now, ttl);
    let keyf = ad_key_fn();
    let keep_pair = not_removed_pred(b.ads, now, ttl);
    let kept = expire_kept(b.ads, now, ttl);
    let removed = expire_removed(b.ads, now, ttl);
    let pairs = expire_pairs(b.ads, now, ttl);
    let idx = seq_keep(b.index, keep_pair);

    lemma_seq_keep_no_duplicates(b.index, keep_pair);
    lemma_seq_keep_map_no_duplicates(b.ads, keyf, fresh);
    lemma_seq_keep_contains(b.ads, fresh);
    lemma_seq_keep_elements(b.ads, fresh);
    lemma_seq_keep_contains(b.ads, stale);
    lemma_seq_keep_elements(b.ads, stale);
    lemma_seq_keep_contains(b.index, keep_pair);
    lemma_seq_keep_elements(b.index, keep_pair);

    assert forall|i: int| 0 <= i < idx.len() implies advertised(kept, #[trigger] idx[i]) by {
        let q = idx[i];
        assert(b.index.contains(q) && keep_pair(q));
        let t = choose|t: int| 0 <= t < b.index.len() && b.index[t] == q;
        assert(advertised(b.ads, b.index[t]));
        let k = choose|k: int| 0 <= k < b.ads.len() && ad_key(b.ads[k]) == q;
        if !is_fresh(b.ads[k], now, ttl) {
            assert(b.ads.contains(b.ads[k]));
            assert(removed.contains(b.ads[k]));
            let j = choose|j: int| 0 <= j < removed.len() && removed[j] == b.ads[k];
            assert(pairs[j] == keyf(removed[j]));
            assert(pairs.contains(q));
            assert(false);
        }
        assert(b.ads.contains(b.ads[k]));
        assert(kept.contains(b.ads[k]));
        let j2 = choose|j2: int| 0 <= j2 < kept.len() && kept[j2] == b.ads[k];
        assert(ad_key(kept[j2]) == q);
    }

    assert forall|k: int| 0 <= k < kept.len() implies idx.contains(
        ad_key(#[trigger] kept[k]),
    ) by {
        let ad = kept[k];
        assert(fresh(ad) && b.ads.contains(ad));
        let t = choose|t: int| 0 <= t < b.ads.len() && b.ads[t] == ad;
        assert(b.index.contains(ad_key(b.ads[t])));
        if pairs.contains(ad_key(ad)) {
            let j = choose|j: int| 0 <= j < pairs.len() && pairs[j] == ad_key(ad);
            assert(pairs[j] == keyf(removed[j]));
            let r = removed[j];
            assert(stale(r) && b.ads.contains(r));
            let t2 = choose|t2: int| 0 <= t2 < b.ads.len() && b.ads[t2] == r;
            assert(b.ads.map_values(keyf)[t] == keyf(ad));
            assert(b.ads.map_values(keyf)[t2] == keyf(r));
            assert(t == t2);
            assert(false);
        }
        assert(keep_pair(ad_key(ad)));
        assert(idx.contains(ad_key(ad)));
    }

    assert forall|t: u64| posted_by(b.ads, t) implies posted_by(
        expire_board(b, now, ttl).ads,
        t,
    ) by {
        assert forall|k: int| 0 <= k < kept.len() implies (#[trigger] kept[k]).date_posted
            <= t by {
            assert(b.ads.contains(kept[k]));
            let j = choose|j: int| 0 <= j < b.ads.len() && b.ads[j] == kept[k];
            assert(b.ads[j].date_posted <= t);
        }
    }
}

/// One reconciliation step preserves the board invariant; newly posted
/// adverts carry the timestamp `now`.
pub proof fn lemma_reconcile_role_wf(b: BoardModel, jid: u64, i: usize, vacant: bool, now: u64)
    requires
        board_wf(b),
    ensures
        board_wf(reconcile_role(b, jid, i, vacant, now)),
        forall|t: u64|
            posted_by(b.ads, t) && now <= t ==> posted_by(
                reconcile_role(b, jid, i, vacant, now).ads,
                t,
            ),
{
    let p = (jid, i);
    let out = reconcile_role(b, jid, i, vacant, now);
    if vacant {
        if !b.index.contains(p) {
            let ad = Advert { job: jid, role_index: i, date_posted: now };
            let keys = b.ads.map_values(ad_key_fn());
            let keys2 = out.ads.map_values(ad_key_fn());
            assert(keys2 =~= keys.push(p));
            assert forall|x: int, y: int| #![trigger keys2[x], keys2[y]]
                0 <= x < y < keys2.len() implies keys2[x] != keys2[y] by {
                if y == keys2.len() - 1 {
                    assert(b.index.contains(ad_key(b.ads[x])));
                }
            }
            assert forall|x: int, y: int| #![trigger out.index[x], out.index[y]]
                0 <= x < y < out.index.len() implies out.index[x] != out.index[y] by {
                if y == out.index.len() - 1 {
                    assert(b.index[x] == out.index[x]);
                    assert(b.index.contains(b.index[x]));
                }
            }
            assert forall|k: int| 0 <= k < out.index.len() implies advertised(
                out.ads,
                #[trigger] out.index[k],
            ) by {
                if k == out.index.len() - 1 {
                    assert(ad_key(out.ads[out.ads.len() - 1]) == p);
                } else {
                    assert(advertised(b.ads, b.index[k]));
                    let w = choose|w: int| 0 <= w < b.ads.len() && ad_key(b.ads[w]) == b.index[k];
                    assert(ad_key(out.ads[w]) == out.index[k]);
                }
            }
            assert forall|k: int| 0 <= k < out.ads.len() implies out.index.contains(
                ad_key(#[trigger] out.ads[k]),
            ) by {
                if k == out.ads.len() - 1 {
                    assert(out.index[out.index.len() - 1] == p);
                } else {
                    assert(b.index.contains(ad_key(b.ads[k])));
                    let w = choose|w: int| 0 <= w < b.index.len() && b.index[w] == ad_key(b.ads[k]);
                    assert(out.index[w] == ad_key(out.ads[k]));
                }
            }
        }
    } else {
        if b.index.contains(p) {
            let keep_ad = key_ne_pred(p);
            let keep_pair = pair_ne_pred(p);
            lemma_seq_keep_no_duplicates(b.index, keep_pair);
            lemma_seq_keep_map_no_duplicates(b.ads, ad_key_fn(), keep_ad);
            lemma_seq_keep_contains(b.ads, keep_ad);
            lemma_seq_keep_elements(b.ads, keep_ad);
            lemma_seq_keep_contains(b.index, keep_pair);
            lemma_seq_keep_elements(b.index, keep_pair);
            assert forall|k: int| 0 <= k < out.index.len() implies advertised(
                out.ads,
                #[trigger] out.index[k],
            ) by {
                let q = out.index[k];
                assert(b.index.contains(q) && q != p);
                let t = choose|t: int| 0 <= t < b.index.len() && b.index[t] == q;
                assert(advertised(b.ads, b.index[t]));
                let w = choose|w: int| 0 <= w < b.ads.len() && ad_key(b.ads[w]) == q;
                assert(b.ads.contains(b.ads[w]));
                assert(out.ads.contains(b.ads[w]));
                let v = choose|v: int| 0 <= v < out.ads.len() && out.ads[v] == b.ads[w];
                assert(ad_key(out.ads[v]) == q);
            }
            assert forall|k: int| 0 <= k < out.ads.len() implies out.index.contains(
                ad_key(#[trigger] out.ads[k]),
            ) by {
                let ad = out.ads[k];
                assert(b.ads.contains(ad) && ad_key(ad) != p);
                let t = choose|t: int| 0 <= t < b.ads.len() && b.ads[t] == ad;
                assert(b.index.contains(ad_key(b.ads[t])));
                assert(out.index.contains(ad_key(ad)));
            }
            assert forall|t: u64| posted_by(b.ads, t) && now <= t implies posted_by(
                out.ads,
                t,
            ) by {
                assert forall|k: int| 0 <= k < out.ads.len() implies (#[trigger] out.ads[k]).date_posted
                    <= t by {
                    assert(b.ads.contains(out.ads[k]));
                    let j = choose|j: int| 0 <= j < b.ads.len() && b.ads[j] == out.ads[k];
                    assert(b.ads[j].date_posted <= t);
                }
            }
        }
    }
}

/// How one reconciliation step changes index membership: the pair of the
/// touched role tracks its vacancy, every other pair is untouched.
pub proof fn lemma_reconcile_role_membership(
    b: BoardModel,
    jid: u64,
    i: usize,
    vacant: bool,
    now: u64,
)
    ensures
        forall|q: (u64, usize)|
            #[trigger] reconcile_role(b, jid, i, vacant, now).index.contains(q) == if q == (
                jid,
                i,
            ) {
                vacant
            } else {
                b.index.contains(q)
            },
{
    let p = (jid, i);
    let out = reconcile_role(b, jid, i, vacant, now);
    if vacant {
        if !b.index.contains(p) {
            assert forall|q: (u64, usize)| #[trigger] out.index.contains(q) == if q == p {
                vacant
            } else {
                b.index.contains(q)
            } by {
                if q == p {
                    assert(out.index[out.index.len() - 1] == p);
                    assert(out.index.contains(p));
                } else {
                    if b.index.contains(q) {
                        let t = choose|t: int| 0 <= t < b.index.len() && b.index[t] == q;
                        assert(out.index[t] == q);
                    }
                    if out.index.contains(q) {
                        let t = choose|t: int| 0 <= t < out.index.len() && out.index[t] == q;
                        assert(b.index[t] == q);
                    }
                }
            }
        }
    } else {
        if b.index.contains(p) {
            lemma_seq_keep_contains(b.index, pair_ne_pred(p));
        }
    }
}

/// Whether the pair (job, role index) occurs in `pairs`.
fn pair_in(pairs: &Vec<(u64, usize)>, job: u64, role_index: usize) -> (r: bool)
    ensures
        r == pairs@.contains((job, role_index)),
{
    let n = pairs.len();
    let mut k: usize = 0;
    while k < n
        invariant
            0 <= k <= n,
            n == pairs@.len(),
            forall|t: int| 0 <= t < k ==> pairs@[t] != (job, role_index),
        decreases n - k,
    {
        let q = pairs[k];
        if q.0 == job && q.1 == role_index {
            return true;
        }
        k += 1;
    }
    false
}

/// The expiry sweep: drop every advert whose age at `now` exceeds the
/// configured time-to-live, drop its pair from the index, and emit one
/// vacancy-changed notification per dropped advert so that a still-vacant
/// role is re-posted by the next reconciliation.
pub fn gregslist_expiration_system(
    board: &mut Gregslist,
    cfg: &GregslistConfig,
    now: u64,
    dirty: &mut Vec<VacancyDirty>,
)
    requires
        posted_by(old(board)@.ads, now),
    ensures
        final(board)@ == expire_board(old(board)@, now, cfg.expiry_secs),
        final(dirty)@ == old(dirty)@ + expire_dirty(old(board)@.ads, now, cfg.expiry_secs),
{
    let ghost ads0 = board@.ads;
    let ttl = cfg.expiry_secs;
    let n = board.ads.len();
    let mut kept: Vec<Advert> = Vec::new();
    let mut removed: Vec<(u64, usize)> = Vec::new();
    let mut k: usize = 0;
    while k < n
        invariant
            0 <= k <= n,
            n == board@.ads.len(),
            board@.ads == ads0,
            posted_by(ads0, now),
            ttl == cfg.expiry_secs,
            kept@ == expire_kept(ads0.take(k as int), now, ttl),
            removed@ == expire_pairs(ads0.take(k as int), now, ttl),
            dirty@ == old(dirty)@ + expire_dirty(ads0.take(k as int), now, ttl),
        decreases n - k,
    {
        let ad = board.ads[k];
        proof {
            assert(ads0.take(k + 1 as int).drop_last() == ads0.take(k as int));
            assert(ads0.take(k + 1 as int).last() == ads0[k as int]);
        }
        if now - ad.date_posted <= ttl {
            kept.push(ad);
            proof {
                assert(expire_pairs(ads0.take(k + 1 as int), now, ttl) =~= removed@);
                assert(expire_dirty(ads0.take(k + 1 as int), now, ttl) =~= expire_dirty(
                    ads0.take(k as int),
                    now,
                    ttl,
                ));
            }
        } else {
            removed.push((ad.job, ad.role_index));
            dirty.push(VacancyDirty { job: ad.job });
            proof {
                assert(expire_pairs(ads0.take(k + 1 as int), now, ttl) =~= removed@);
                assert(expire_dirty(ads0.take(k + 1 as int), now, ttl) =~= expire_dirty(
                    ads0.take(k as int),
                    now,
                    ttl,
                ).push(VacancyDirty { job: ad.job }));
            }
        }
        k += 1;
    }
    proof {
        assert(ads0.take(n as int) == ads0);
    }
    board.ads = kept;

    let m = board.index.len();
    let mut kept_index: Vec<(u64, usize)> = Vec::new();
    let mut t: usize = 0;
    while t < m
        invariant
            0 <= t <= m,
            m == board@.index.len(),
            board@.index == old(board)@.index,
            removed@ == expire_pairs(ads0, now, ttl),
            kept_index@ == seq_keep(
                old(board)@.index.take(t as int),
                not_removed_pred(ads0, now, ttl),
            ),
        decreases m - t,
    {
        let q = board.index[t];
        proof {
            assert(old(board)@.index.take(t + 1 as int).drop_last() == old(board)@.index.take(
                t as int,
            ));
            assert(old(board)@.index.take(t + 1 as int).last() == old(board)@.index[t as int]);
        }
        if !pair_in(&removed, q.0, q.1) {
            kept_index.push(q);
        }
        t += 1;
    }
    proof {
        assert(old(board)@.index.take(m as int) == old(board)@.index);
    }
    board.index = kept_index;
}

impl Gregslist {
    /// An empty board.
    pub fn new() -> (b: Gregslist)
        ensures
            b@.ads == Seq::<Advert>::empty(),
            b@.index == Seq::<(u64, usize)>::empty(),
            board_wf(b@),
    {
        Gregslist { ads: Vec::new(), index: Vec::new() }
    }

    /// Whether the pair (job, role index) is currently in the index.
    pub fn contains_key(&self, job: u64, role_index: usize) -> (r: bool)
        ensures
            r == self@.index.contains((job, role_index)),
    {
        let n = self.index.len();
        let mut k: usize = 0;
        while k < n
            invariant
                0 <= k <= n,
                n == self@.index.len(),
                forall|t: int| 0 <= t < k ==> self@.index[t] != (job, role_index),
            decreases n - k,
        {
            let q = self.index[k];
            if q.0 == job && q.1 == role_index {
                return true;
            }
            k += 1;
        }
        false
    }

    /// Ensure one advert exists for (job, role index); idempotent.
    pub fn post(&mut self, job: u64, role_index: usize, now: u64) -> (changed: bool)
        ensures
            final(self)@ == reconcile_role(old(self)@, job, role_index, true, now),
            changed == !old(self)@.index.contains((job, role_index)),
    {
        if self.contains_key(job, role_index) {
            false
        } else {
            self.ads.push(Advert { job, role_index, date_posted: now });
            self.index.push((job, role_index));
            true
        }
    }

    /// Remove any advert for (job, role index); idempotent.
    pub fn retract(&mut self, job: u64, role_index: usize) -> (changed: bool)
        ensures
            final(self)@ == reconcile_role(old(self)@, job, role_index, false, 0),
            changed == old(self)@.index.contains((job, role_index)),
    {
        if !self.contains_key(job, role_index) {
            return false;
        }
        let n = self.ads.len();
        let mut kept: Vec<Advert> = Vec::new();
        let mut k: usize = 0;
        while k < n
            invariant
                0 <= k <= n,
                n == self@.ads.len(),
                kept@ == ads_without(self@.ads.take(k as int), (job, role_index)),
            decreases n - k,
        {
            let ad = self.ads[k];
            proof {
                assert(self@.ads.take(k + 1 as int).drop_last() == self@.ads.take(k as int));
                assert(self@.ads.take(k + 1 as int).last() == self@.ads[k as int]);
            }
            if !(ad.job == job && ad.role_index == role_index) {
                kept.push(ad);
            }
            k += 1;
        }
        proof {
            assert(self@.ads.take(n as int) == self@.ads);
        }
        self.ads = kept;

        let m = self.index.len();
        let mut kept_index: Vec<(u64, usize)> = Vec::new();
        let mut t: usize = 0;
        while t < m
            invariant
                0 <= t <= m,
                m == self@.index.len(),
                kept_index@ == index_without(self@.index.take(t as int), (job, role_index)),
            decreases m - t,
        {
            let q = self.index[t];
            proof {
                assert(self@.index.take(t + 1 as int).drop_last() == self@.index.take(t as int));
                assert(self@.index.take(t + 1 as int).last() == self@.index[t as int]);
            }
            if !(q.0 == job && q.1 == role_index) {
                kept_index.push(q);
            }
            t += 1;
        }
        proof {
            assert(self@.index.take(m as int) == self@.index);
        }
        self.index = kept_index;
        true
    }
}

} // verus!
