//! Sorting by a pair of integers without moving the items: the order in
//! which a stable sort would put them.

use vstd::prelude::*;
use vstd::set_lib::{lemma_int_range, lemma_subset_equality, set_int_range};

verus! {

/// Whether the key `a` stands before the key `b`: pairs compare by their
/// first part, then by their second.
pub open spec fn key_before(a: (u64, u64), b: (u64, u64)) -> bool {
    a.0 < b.0 || (a.0 == b.0 && a.1 < b.1)
}

/// `order` lists the positions of `keys` in ascending key order, positions
/// with equal keys in ascending order.
pub open spec fn is_stable_order(keys: Seq<(u64, u64)>, order: Seq<usize>) -> bool {
    &&& order.len() == keys.len()
    &&& forall|i: int| 0 <= i < order.len() ==> (#[trigger] order[i]) < keys.len()
    &&& forall|i: int, j: int|
        0 <= i < j < order.len() ==> key_before(
            keys[(#[trigger] order[i]) as int],
            keys[(#[trigger] order[j]) as int],
        ) || (keys[order[i] as int] == keys[order[j] as int] && order[i] < order[j])
}

/// The items of `items` in the order that `order` lists their positions in.
pub open spec fn arranged<T>(items: Seq<T>, order: Seq<usize>) -> Seq<T> {
    Seq::new(order.len(), |k: int| items[order[k] as int])
}

/// Sorts the positions of `keys` with `permutation::sort` and reads the
/// outcome off with `permutation::Permutation::apply_slice`.
///
/// Trusted: the sort is a stable one by the keys' own order, and applying
/// its outcome to the list of positions gives, for each place of the sorted
/// sequence, the position that the key there came from.
#[verifier::external_body]
pub(crate) fn stable_sort_order(keys: &Vec<(u64, u64)>) -> (order: Vec<usize>)
    ensures
        is_stable_order(keys@, order@),
{
    let positions: Vec<usize> = (0..keys.len()).collect();
    permutation::sort(keys).apply_slice(&positions)
}

/// A stable order lists every position.
pub proof fn lemma_order_covers(keys: Seq<(u64, u64)>, order: Seq<usize>, p: int)
    requires
        is_stable_order(keys, order),
        0 <= p < keys.len(),
    ensures
        exists|k: int| 0 <= k < order.len() && order[k] == p,
{
    let n = keys.len() as int;
    let ints = order.map_values(|x: usize| x as int);
    assert forall|i: int, j: int| 0 <= i < ints.len() && 0 <= j < ints.len() && i != j implies ints[i]
        != ints[j] by {
        if i < j {
            assert(key_before(keys[order[i] as int], keys[order[j] as int]) || order[i] < order[j]);
        } else {
            assert(key_before(keys[order[j] as int], keys[order[i] as int]) || order[j] < order[i]);
        }
    }
    ints.unique_seq_to_set();
    lemma_int_range(0, n);
    assert(ints.to_set().subset_of(set_int_range(0, n))) by {
        assert forall|x: int| ints.to_set().contains(x) implies set_int_range(0, n).contains(x) by {
            let k = choose|k: int| 0 <= k < ints.len() && ints[k] == x;
            assert(order[k] < keys.len());
        }
    }
    vstd::set_lib::lemma_len_subset(ints.to_set(), set_int_range(0, n));
    lemma_subset_equality(ints.to_set(), set_int_range(0, n));
    assert(set_int_range(0, n).contains(p));
    assert(ints.to_set().contains(p));
    let k = choose|k: int| 0 <= k < ints.len() && ints[k] == p;
    assert(order[k] == p);
}

/// Whether the key at position `a` stands before the key at position `b`
/// in a stable order: by its key, and by its position where the keys are
/// the same.
pub open spec fn stands_before(keys: Seq<(u64, u64)>, a: usize, b: usize) -> bool {
    key_before(keys[a as int], keys[b as int]) || (keys[a as int] == keys[b as int] && a < b)
}

proof fn lemma_orders_agree(keys: Seq<(u64, u64)>, a: Seq<usize>, b: Seq<usize>, upto: int)
    requires
        is_stable_order(keys, a),
        is_stable_order(keys, b),
        0 <= upto <= keys.len(),
    ensures
        forall|i: int| 0 <= i < upto ==> a[i] == b[i],
    decreases upto,
{
    if upto > 0 {
        lemma_orders_agree(keys, a, b, upto - 1);
        let i = upto - 1;
        if a[i] != b[i] {
            let x = a[i];
            let y = b[i];
            assert(x < keys.len() && y < keys.len());
            lemma_order_covers(keys, b, x as int);
            let j = choose|j: int| 0 <= j < b.len() && b[j] == x as int;
            lemma_order_covers(keys, a, y as int);
            let m = choose|m: int| 0 <= m < a.len() && a[m] == y as int;
            // Neither stands at an earlier place: the orders agree there, and
            // no position stands at two places.
            if j < i {
                assert(a[j] == b[j]);
                assert(stands_before(keys, a[j], a[i]));
            }
            if m < i {
                assert(a[m] == b[m]);
                assert(stands_before(keys, b[m], b[i]));
            }
            assert(stands_before(keys, a[i], a[m]));
            assert(stands_before(keys, b[i], b[j]));
        }
    }
}

/// A sequence of keys has one stable order only.
pub proof fn lemma_stable_order_unique(keys: Seq<(u64, u64)>, a: Seq<usize>, b: Seq<usize>)
    requires
        is_stable_order(keys, a),
        is_stable_order(keys, b),
    ensures
        a == b,
{
    lemma_orders_agree(keys, a, b, keys.len() as int);
    assert(a =~= b);
}

} // verus!
