//! Item containers: a flat list of item handles per container, with
//! duplicate-free insertion and swap-removal.

use vstd::prelude::*;

verus! {

/// A container's items, in insertion order.
pub struct Inventory {
    pub items: Vec<u64>,
}

/// The position of the first occurrence of `item`; meaningful when the
/// sequence contains it.
pub open spec fn first_index_of(s: Seq<u64>, item: u64) -> int {
    choose|i: int|
        0 <= i < s.len() && s[i] == item && (forall|t: int| 0 <= t < i ==> s[t] != item)
}

/// What a swap-removal of the first occurrence of `item` leaves: the last
/// element takes its place.
pub open spec fn spec_swap_remove_first(s: Seq<u64>, item: u64) -> Seq<u64> {
    s.update(first_index_of(s, item), s.last()).drop_last()
}

impl Inventory {
    /// An empty container.
    pub fn new() -> (inv: Inventory)
        ensures
            inv.items@ == Seq::<u64>::empty(),
    {
        Inventory { items: Vec::new() }
    }
}

/// Add `item` to the container if it is not already present.
pub fn inv_add(inv: &mut Inventory, item: u64)
    ensures
        final(inv).items@ == if old(inv).items@.contains(item) {
            old(inv).items@
        } else {
            old(inv).items@.push(item)
        },
{
    if !inv_contains(&*inv, item) {
        inv.items.push(item);
    }
}

/// Remove `item` from the container by swap-removal; returns whether
/// anything was removed.
pub fn inv_remove(inv: &mut Inventory, item: u64) -> (removed: bool)
    ensures
        removed == old(inv).items@.contains(item),
        removed ==> final(inv).items@ == spec_swap_remove_first(old(inv).items@, item),
        !removed ==> final(inv).items@ == old(inv).items@,
{
    let n = inv.items.len();
    let mut k: usize = 0;
    while k < n
        invariant
            0 <= k <= n,
            n == inv.items@.len(),
            inv.items@ == old(inv).items@,
            forall|t: int| 0 <= t < k ==> inv.items@[t] != item,
        decreases n - k,
    {
        if inv.items[k] == item {
            proof {
                let s = inv.items@;
                let i = first_index_of(s, item);
                assert(0 <= i < s.len() && s[i] == item && (forall|t: int|
                    0 <= t < i ==> s[t] != item));
                if i < k as int {
                    assert(s[i] != item);
                }
                if i > k as int {
                    assert(s[k as int] != item);
                }
                assert(i == k as int);
            }
            inv.items.swap_remove(k);
            return true;
        }
        k += 1;
    }
    false
}

/// Move `item` from one container to another: removed from the source if
/// present, added to the destination unless already there.
pub fn inv_move(from: &mut Inventory, to: &mut Inventory, item: u64)
    ensures
        old(from).items@.contains(item) ==> final(from).items@ == spec_swap_remove_first(
            old(from).items@,
            item,
        ),
        !old(from).items@.contains(item) ==> final(from).items@ == old(from).items@,
        final(to).items@ == if old(to).items@.contains(item) {
            old(to).items@
        } else {
            old(to).items@.push(item)
        },
{
    inv_remove(from, item);
    inv_add(to, item);
}

/// True if `item` is in the container.
pub fn inv_contains(inv: &Inventory, item: u64) -> (r: bool)
    ensures
        r == inv.items@.contains(item),
{
    let n = inv.items.len();
    let mut k: usize = 0;
    while k < n
        invariant
            0 <= k <= n,
            n == inv.items@.len(),
            forall|t: int| 0 <= t < k ==> inv.items@[t] != item,
        decreases n - k,
    {
        if inv.items[k] == item {
            return true;
        }
        k += 1;
    }
    false
}

/// A copy of all items in the container.
pub fn inv_list(inv: &Inventory) -> (out: Vec<u64>)
    ensures
        out@ == inv.items@,
{
    let n = inv.items.len();
    let mut out: Vec<u64> = Vec::new();
    let mut k: usize = 0;
    while k < n
        invariant
            0 <= k <= n,
            n == inv.items@.len(),
            out@ == inv.items@.take(k as int),
        decreases n - k,
    {
        out.push(inv.items[k]);
        proof {
            assert(inv.items@.take(k + 1 as int) =~= inv.items@.take(k as int).push(
                inv.items@[k as int],
            ));
        }
        k += 1;
    }
    proof {
        assert(inv.items@.take(n as int) == inv.items@);
    }
    out
}

} // verus!
