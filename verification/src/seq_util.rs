//! Small helpers on sequences: keeping the elements that satisfy a
//! predicate, and facts about what such a selection contains.

use vstd::prelude::*;

verus! {

/// The subsequence of `s`, in order, of the elements satisfying `pred`.
pub open spec fn seq_keep<T>(s: Seq<T>, pred: spec_fn(T) -> bool) -> Seq<T>
    decreases s.len(),
{
    if s.len() == 0 {
        s
    } else {
        let rest = seq_keep(s.drop_last(), pred);
        if pred(s.last()) {
            rest.push(s.last())
        } else {
            rest
        }
    }
}

/// An element is kept exactly when it occurs in `s` and satisfies `pred`.
pub proof fn lemma_seq_keep_contains<T>(s: Seq<T>, pred: spec_fn(T) -> bool)
    ensures
        forall|x: T| seq_keep(s, pred).contains(x) <==> s.contains(x) && pred(x),
    decreases s.len(),
{
    if s.len() > 0 {
        lemma_seq_keep_contains(s.drop_last(), pred);
        assert forall|x: T| s.contains(x) && pred(x) implies seq_keep(s, pred).contains(x) by {
            if s.last() == x {
                let r = seq_keep(s, pred);
                assert(r[r.len() - 1] == x);
            } else {
                let k = choose|k: int| 0 <= k < s.len() && s[k] == x;
                assert(s.drop_last()[k] == x);
                assert(s.drop_last().contains(x));
                let rest = seq_keep(s.drop_last(), pred);
                assert(rest.contains(x));
                let j = choose|j: int| 0 <= j < rest.len() && rest[j] == x;
                assert(seq_keep(s, pred)[j] == x);
            }
        }
        assert forall|x: T| seq_keep(s, pred).contains(x) implies s.contains(x) && pred(x) by {
            let r = seq_keep(s, pred);
            let rest = seq_keep(s.drop_last(), pred);
            let k = choose|k: int| 0 <= k < r.len() && r[k] == x;
            if pred(s.last()) && k == r.len() - 1 {
                assert(s[s.len() - 1] == x);
            } else {
                assert(rest[k] == x);
                assert(rest.contains(x));
                assert(s.drop_last().contains(x));
                let t = choose|t: int|
                    0 <= t < s.drop_last().len() && s.drop_last()[t] == x;
                assert(s[t] == x);
            }
        }
    }
}

/// Every element of the selection satisfies `pred` and occurs in `s`.
pub proof fn lemma_seq_keep_elements<T>(s: Seq<T>, pred: spec_fn(T) -> bool)
    ensures
        forall|i: int| 0 <= i < seq_keep(s, pred).len() ==> pred(#[trigger] seq_keep(s, pred)[i])
            && s.contains(seq_keep(s, pred)[i]),
        seq_keep(s, pred).len() <= s.len(),
    decreases s.len(),
{
    if s.len() > 0 {
        lemma_seq_keep_elements(s.drop_last(), pred);
        assert forall|i: int| 0 <= i < seq_keep(s, pred).len() implies pred(
            #[trigger] seq_keep(s, pred)[i],
        ) && s.contains(seq_keep(s, pred)[i]) by {
            let r = seq_keep(s, pred);
            if pred(s.last()) && i == r.len() - 1 {
                assert(s[s.len() - 1] == r[i]);
            } else {
                let rest = seq_keep(s.drop_last(), pred);
                assert(rest[i] == r[i]);
                assert(s.drop_last().contains(rest[i]));
                let t = choose|t: int|
                    0 <= t < s.drop_last().len() && s.drop_last()[t] == rest[i];
                assert(s[t] == rest[i]);
            }
        }
    }
}

/// Selection keeps a duplicate-free sequence duplicate-free.
pub proof fn lemma_seq_keep_no_duplicates<T>(s: Seq<T>, pred: spec_fn(T) -> bool)
    requires
        s.no_duplicates(),
    ensures
        seq_keep(s, pred).no_duplicates(),
    decreases s.len(),
{
    if s.len() > 0 {
        assert(s.drop_last().no_duplicates());
        lemma_seq_keep_no_duplicates(s.drop_last(), pred);
        if pred(s.last()) {
            lemma_seq_keep_contains(s.drop_last(), pred);
            let rest = seq_keep(s.drop_last(), pred);
            if rest.contains(s.last()) {
                assert(s.drop_last().contains(s.last()));
                let t = choose|t: int|
                    0 <= t < s.drop_last().len() && s.drop_last()[t] == s.last();
                assert(s[t] == s[s.len() - 1]);
                assert(false);
            }
            assert forall|i: int, j: int|
                0 <= i < j < rest.push(s.last()).len() implies rest.push(s.last())[i] != rest.push(
                s.last(),
            )[j] by {
                if j < rest.len() {
                } else {
                    assert(rest.contains(rest[i]));
                }
            }
        }
    }
}

/// When every element satisfies `pred`, the selection is `s` itself.
pub proof fn lemma_seq_keep_all<T>(s: Seq<T>, pred: spec_fn(T) -> bool)
    requires
        forall|i: int| 0 <= i < s.len() ==> pred(#[trigger] s[i]),
    ensures
        seq_keep(s, pred) == s,
    decreases s.len(),
{
    if s.len() > 0 {
        lemma_seq_keep_all(s.drop_last(), pred);
        assert(pred(s[s.len() - 1]));
        assert(seq_keep(s, pred) =~= s);
    }
}

/// If mapping `f` over `s` yields no duplicates, the same holds for any
/// selection from `s`.
pub proof fn lemma_seq_keep_map_no_duplicates<T, U>(
    s: Seq<T>,
    f: spec_fn(T) -> U,
    pred: spec_fn(T) -> bool,
)
    requires
        s.map_values(f).no_duplicates(),
    ensures
        seq_keep(s, pred).map_values(f).no_duplicates(),
    decreases s.len(),
{
    if s.len() > 0 {
        assert(s.drop_last().map_values(f) =~= s.map_values(f).drop_last());
        assert(s.drop_last().map_values(f).no_duplicates());
        lemma_seq_keep_map_no_duplicates(s.drop_last(), f, pred);
        if pred(s.last()) {
            let rest = seq_keep(s.drop_last(), pred);
            let mapped = rest.map_values(f);
            assert(seq_keep(s, pred).map_values(f) =~= mapped.push(f(s.last())));
            if mapped.contains(f(s.last())) {
                let j = choose|j: int| 0 <= j < mapped.len() && mapped[j] == f(s.last());
                lemma_seq_keep_elements(s.drop_last(), pred);
                assert(s.drop_last().contains(rest[j]));
                let t = choose|t: int|
                    0 <= t < s.drop_last().len() && s.drop_last()[t] == rest[j];
                assert(s.map_values(f)[t] == f(rest[j]));
                assert(s.map_values(f)[s.len() - 1] == f(s.last()));
                assert(false);
            }
            let q = mapped.push(f(s.last()));
            assert forall|i: int, j: int| #![trigger q[i], q[j]]
                0 <= i < j < q.len() implies q[i] != q[j] by {
                if j < mapped.len() {
                } else {
                    assert(mapped.contains(mapped[i]));
                }
            }
        }
    }
}

} // verus!
