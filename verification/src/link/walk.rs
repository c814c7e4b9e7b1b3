//! Walks over the elements that belong to one owner.
//!
//! The elements of a link stand in flat tables, and each names its owner: a
//! memory region its file, a segment its region, a section its segment. To
//! visit the elements of one owner in the order of their declaration is to go
//! through the table and take those whose key is the owner. The walk carries a
//! state from element to element and ends at the first element that fails.

use vstd::prelude::*;
use crate::error::LinkError;
use crate::link::graph::lists_exactly;

verus! {

/// The state after the elements below `n` whose key is `target`, taken in
/// ascending order from the state `init`, or the first error that one gave.
pub open spec fn walk<C>(
    keys: Seq<int>,
    target: int,
    step: spec_fn(int, C) -> Result<C, LinkError>,
    init: C,
    n: int,
) -> Result<C, LinkError>
    decreases n,
{
    if n <= 0 {
        Ok(init)
    } else {
        match walk(keys, target, step, init, n - 1) {
            Err(e) => Err(e),
            Ok(c) => if keys[n - 1] == target {
                step(n - 1, c)
            } else {
                Ok(c)
            },
        }
    }
}

/// The position up to which a walk has come when it stands before entry `j`
/// of the list of an owner: that entry, or the end of the table.
pub open spec fn list_bound(list: Seq<int>, j: int, n: int) -> int {
    if j < list.len() {
        list[j]
    } else {
        n
    }
}

/// A walk that has failed stays failed.
pub proof fn lemma_walk_err<C>(
    keys: Seq<int>,
    target: int,
    step: spec_fn(int, C) -> Result<C, LinkError>,
    init: C,
    a: int,
    b: int,
)
    requires
        a <= b,
        walk(keys, target, step, init, a) is Err,
    ensures
        walk(keys, target, step, init, b) == walk(keys, target, step, init, a),
    decreases b - a,
{
    if a < b {
        lemma_walk_err(keys, target, step, init, a, b - 1);
    }
}

/// Elements of other owners leave the state as it is.
pub proof fn lemma_walk_skip<C>(
    keys: Seq<int>,
    target: int,
    step: spec_fn(int, C) -> Result<C, LinkError>,
    init: C,
    a: int,
    b: int,
)
    requires
        0 <= a <= b,
        forall|k: int| a <= k < b ==> keys[k] != target,
    ensures
        walk(keys, target, step, init, b) == walk(keys, target, step, init, a),
    decreases b - a,
{
    if a < b {
        lemma_walk_skip(keys, target, step, init, a, b - 1);
    }
}

/// Between two entries of the list of an owner, and after the last one, the
/// table holds no element of that owner.
pub proof fn lemma_no_entry_between(list: Seq<int>, keys: Seq<int>, target: int, j: int, k: int)
    requires
        lists_exactly(list, keys, target),
        0 <= j <= list.len(),
        (if j == 0 {
            0
        } else {
            list[j - 1] + 1
        }) <= k < list_bound(list, j, keys.len() as int),
    ensures
        keys[k] != target,
{
    if keys[k] == target {
        assert(list.contains(k));
        let i = choose|i: int| 0 <= i < list.len() && list[i] == k;
        if i < j {
            if i < j - 1 {
                assert(list[i] < list[j - 1]);
            }
        } else {
            if j < i {
                assert(list[j] < list[i]);
            }
        }
    }
}

/// The walk does not move between two entries of the list of an owner, nor
/// after the last one.
pub proof fn lemma_walk_to_entry<C>(
    list: Seq<int>,
    keys: Seq<int>,
    target: int,
    step: spec_fn(int, C) -> Result<C, LinkError>,
    init: C,
    j: int,
)
    requires
        lists_exactly(list, keys, target),
        0 <= j <= list.len(),
    ensures
        0 <= list_bound(list, j, keys.len() as int) <= keys.len(),
        j == 0 ==> walk(keys, target, step, init, list_bound(list, j, keys.len() as int)) == Ok::<
            C,
            LinkError,
        >(init),
        j > 0 ==> list[j - 1] + 1 <= list_bound(list, j, keys.len() as int) && walk(
            keys,
            target,
            step,
            init,
            list_bound(list, j, keys.len() as int),
        ) == walk(keys, target, step, init, list[j - 1] + 1),
{
    let a = if j == 0 {
        0
    } else {
        list[j - 1] + 1
    };
    let b = list_bound(list, j, keys.len() as int);
    assert forall|k: int| a <= k < b implies keys[k] != target by {
        lemma_no_entry_between(list, keys, target, j, k);
    }
    if j > 0 && j < list.len() {
        assert(list[j - 1] < list[j]);
    }
    lemma_walk_skip(keys, target, step, init, a, b);
}

/// Taking entry `j` of the list of an owner is one step of the walk.
pub proof fn lemma_walk_step<C>(
    list: Seq<int>,
    keys: Seq<int>,
    target: int,
    step: spec_fn(int, C) -> Result<C, LinkError>,
    init: C,
    j: int,
)
    requires
        lists_exactly(list, keys, target),
        0 <= j < list.len(),
    ensures
        walk(keys, target, step, init, list[j] + 1) == match walk(keys, target, step, init, list[j]) {
            Err(e) => Err(e),
            Ok(c) => step(list[j], c),
        },
{
}

/// A walk that has come through has come through every part of its way.
pub proof fn lemma_walk_ok_prefix<C>(
    keys: Seq<int>,
    target: int,
    step: spec_fn(int, C) -> Result<C, LinkError>,
    init: C,
    a: int,
    b: int,
)
    requires
        a <= b,
        walk(keys, target, step, init, b) is Ok,
    ensures
        walk(keys, target, step, init, a) is Ok,
{
    if walk(keys, target, step, init, a) is Err {
        lemma_walk_err(keys, target, step, init, a, b);
    }
}

/// The sum of `f` over the positions below `n` at which `target` stands.
pub open spec fn sum_where(keys: Seq<int>, target: int, f: spec_fn(int) -> int, n: int) -> int
    decreases n,
{
    if n <= 0 {
        0
    } else {
        sum_where(keys, target, f, n - 1) + if keys[n - 1] == target {
            f(n - 1)
        } else {
            0
        }
    }
}

/// The sum of `f` over the first `j` entries of a list.
pub open spec fn sum_over(list: Seq<int>, f: spec_fn(int) -> int, j: int) -> int
    decreases j,
{
    if j <= 0 {
        0
    } else {
        sum_over(list, f, j - 1) + f(list[j - 1])
    }
}

proof fn lemma_sum_where_skip(keys: Seq<int>, target: int, f: spec_fn(int) -> int, a: int, b: int)
    requires
        0 <= a <= b,
        forall|k: int| a <= k < b ==> keys[k] != target,
    ensures
        sum_where(keys, target, f, b) == sum_where(keys, target, f, a),
    decreases b - a,
{
    if a < b {
        lemma_sum_where_skip(keys, target, f, a, b - 1);
    }
}

/// To sum over the elements of an owner in the table is to sum over its list.
pub proof fn lemma_sum_where_is_sum_over(
    list: Seq<int>,
    keys: Seq<int>,
    target: int,
    f: spec_fn(int) -> int,
    j: int,
)
    requires
        lists_exactly(list, keys, target),
        0 <= j <= list.len(),
    ensures
        sum_where(keys, target, f, list_bound(list, j, keys.len() as int)) == sum_over(list, f, j),
    decreases j,
{
    let b = list_bound(list, j, keys.len() as int);
    let a = if j == 0 {
        0
    } else {
        list[j - 1] + 1
    };
    assert forall|k: int| a <= k < b implies keys[k] != target by {
        lemma_no_entry_between(list, keys, target, j, k);
    }
    if j > 0 && j < list.len() {
        assert(list[j - 1] < list[j]);
    }
    lemma_sum_where_skip(keys, target, f, a, b);
    if j > 0 {
        lemma_sum_where_is_sum_over(list, keys, target, f, j - 1);
    }
}

/// A sum of summands that are not negative grows with the positions summed.
pub proof fn lemma_sum_where_grows(keys: Seq<int>, target: int, f: spec_fn(int) -> int, a: int, b: int)
    requires
        a <= b,
        forall|k: int| a <= k < b ==> #[trigger] f(k) >= 0,
    ensures
        sum_where(keys, target, f, a) <= sum_where(keys, target, f, b),
    decreases b - a,
{
    if a < b {
        lemma_sum_where_grows(keys, target, f, a, b - 1);
    }
}

/// Sums over the elements of an owner agree where the summands agree on
/// these elements.
pub proof fn lemma_sum_where_same(
    keys: Seq<int>,
    target: int,
    f1: spec_fn(int) -> int,
    f2: spec_fn(int) -> int,
    n: int,
)
    requires
        forall|k: int| 0 <= k < n && keys[k] == target ==> #[trigger] f1(k) == f2(k),
    ensures
        sum_where(keys, target, f1, n) == sum_where(keys, target, f2, n),
    decreases n,
{
    if n > 0 {
        lemma_sum_where_same(keys, target, f1, f2, n - 1);
    }
}

/// A sum is no larger than the sum of larger summands.
pub proof fn lemma_sum_where_below(
    keys: Seq<int>,
    target: int,
    f1: spec_fn(int) -> int,
    f2: spec_fn(int) -> int,
    n: int,
)
    requires
        forall|k: int| 0 <= k < n ==> #[trigger] f1(k) <= f2(k),
    ensures
        sum_where(keys, target, f1, n) <= sum_where(keys, target, f2, n),
    decreases n,
{
    if n > 0 {
        lemma_sum_where_below(keys, target, f1, f2, n - 1);
    }
}

/// Sums over a list agree where the summands agree on the list.
pub proof fn lemma_sum_over_same(list: Seq<int>, f1: spec_fn(int) -> int, f2: spec_fn(int) -> int, j: int)
    requires
        0 <= j <= list.len(),
        forall|i: int| 0 <= i < j ==> f1(#[trigger] list[i]) == f2(list[i]),
    ensures
        sum_over(list, f1, j) == sum_over(list, f2, j),
    decreases j,
{
    if j > 0 {
        lemma_sum_over_same(list, f1, f2, j - 1);
    }
}

} // verus!
