//! Planning a move: from the rows of a list in display order, the item to move
//! and its 1-based target position, the one new key that the move writes.
use vstd::prelude::*;
use vstd::multiset::Multiset;
use crate::fraction::{
    Fraction, OrderError, Rational, key_between, key_between_spec, lemma_lt_le_transitive, less_than, opt_view,
};

verus! {

/// One row of a list: a stable id, its order key and its text.
#[derive(Debug, PartialEq, Eq)]
pub struct Item {
    pub id: u64,
    pub key: Fraction,
    pub payload: String,
}

/// The keys of `rows`, in the same order.
pub open spec fn keys_of(rows: Seq<Item>) -> Seq<Rational> {
    rows.map_values(|it: Item| it.key@)
}

/// Every key has a positive denominator.
pub open spec fn keys_wf(rows: Seq<Item>) -> bool {
    forall|i: int| 0 <= i < rows.len() ==> (#[trigger] rows[i]).key.wf()
}

/// The keys ascend strictly, each pair compared as rationals.
pub open spec fn strictly_increasing(keys: Seq<Rational>) -> bool {
    forall|i: int, j: int| 0 <= i < j < keys.len() ==> (#[trigger] keys[i]).lt(#[trigger] keys[j])
}

/// `i` is the first index of a row with id `id`.
pub open spec fn is_first_index(rows: Seq<Item>, id: u64, i: int) -> bool {
    &&& 0 <= i < rows.len()
    &&& rows[i].id == id
    &&& forall|j: int| 0 <= j < i ==> (#[trigger] rows[j]).id != id
}

/// Some row has id `id`.
pub open spec fn has_id(rows: Seq<Item>, id: u64) -> bool {
    exists|i: int| 0 <= i < rows.len() && (#[trigger] rows[i]).id == id
}

/// The index of the first row with id `id`, where there is one.
pub open spec fn index_of(rows: Seq<Item>, id: u64) -> int {
    choose|i: int| is_first_index(rows, id, i)
}

/// The keys next to the 1-based slot `position` among the `rest` of the keys
/// (all but the moved item's own): below it, unless the slot is the first;
/// above it, unless the slot is the last.
pub open spec fn neighbor_pair(rest: Seq<Rational>, position: int) -> (Option<Rational>, Option<Rational>) {
    (
        if position >= 2 { Some(rest[position - 2]) } else { None },
        if position <= rest.len() { Some(rest[position - 1]) } else { None },
    )
}

/// The key that moving `id` to `position` gives it: its own key where it is
/// the only row, else the key between the neighbour pair of the slot among
/// the other rows; `None` where that pair is not strictly increasing.
pub open spec fn planned_key(rows: Seq<Item>, id: u64, position: int) -> Option<Rational> {
    if rows.len() == 1 {
        Some(rows[0].key@)
    } else {
        let rest = keys_of(rows.remove(index_of(rows, id)));
        key_between_spec(neighbor_pair(rest, position).0, neighbor_pair(rest, position).1)
    }
}

/// A move request that passes the checks on the list, the position and the
/// id, so that its outcome is the planned key.
pub open spec fn move_outcome_ok(rows: Seq<Item>, id: u64, position: int) -> bool {
    rows.len() > 0 && 1 <= position <= rows.len() && has_id(rows, id)
}

/// The index of the first row with id `id`, or `None` where no row has it.
pub fn find_index(rows: &Vec<Item>, id: u64) -> (r: Option<usize>)
    ensures
        r matches Some(i) ==> is_first_index(rows@, id, i as int) && index_of(rows@, id) == i,
        r is None <==> !has_id(rows@, id),
{
    let n = rows.len();
    let mut i: usize = 0;
    while i < n && rows[i].id != id
        invariant
            n == rows@.len(),
            0 <= i <= n,
            forall|j: int| 0 <= j < i ==> (#[trigger] rows@[j]).id != id,
        decreases n - i,
    {
        i = i + 1;
    }
    if i == n {
        None
    } else {
        proof {
            lemma_first_index_unique(rows@, id, i as int);
        }
        Some(i)
    }
}

/// A first index of `id` is the one that [`index_of`] names.
pub proof fn lemma_first_index_unique(rows: Seq<Item>, id: u64, i: int)
    requires
        is_first_index(rows, id, i),
    ensures
        index_of(rows, id) == i,
        has_id(rows, id),
{
    let j = index_of(rows, id);
    assert(is_first_index(rows, id, j));
    if j < i {
        assert(rows[j].id != id);
    }
    if i < j {
        assert(rows[i].id != id);
    }
}

/// Plans "move item `id` to display position `position`" over the rows of a
/// list in display order. Errors, in the order they are checked: an empty
/// list, a position outside `1..=rows.len()`, an id that no row has; then the
/// key computation's own. On success the result is the one key to write.
pub fn plan_move(rows: &Vec<Item>, id: u64, position: i64) -> (r: Result<Fraction, OrderError>)
    requires
        keys_wf(rows@),
    ensures
        rows@.len() == 0 ==> r == Err::<Fraction, OrderError>(OrderError::EmptyList),
        rows@.len() > 0 && !(1 <= position <= rows@.len()) ==> r == Err::<Fraction, OrderError>(
            OrderError::PositionOutOfRange,
        ),
        rows@.len() > 0 && 1 <= position <= rows@.len() && !has_id(rows@, id) ==> r == Err::<
            Fraction,
            OrderError,
        >(OrderError::NotFound),
        move_outcome_ok(rows@, id, position as int) ==> match r {
            Ok(k) => planned_key(rows@, id, position as int) == Some(k@),
            Err(OrderError::DegenerateRange) => planned_key(rows@, id, position as int) is None,
            Err(OrderError::Overflow) => planned_key(rows@, id, position as int) matches Some(q)
                && !q.fits(),
            Err(_) => false,
        },
{
    let n = rows.len();
    if n == 0 {
        return Err(OrderError::EmptyList);
    }
    if position < 1 || position as u64 > n as u64 {
        return Err(OrderError::PositionOutOfRange);
    }
    let p = position as usize;
    let i = match find_index(rows, id) {
        Some(i) => i,
        None => return Err(OrderError::NotFound),
    };
    if n == 1 {
        return Ok(rows[0].key);
    }
    let ghost rest = keys_of(rows@.remove(i as int));
    // The rest of the rows, without the moved one: its index `k` is the row's
    // index `k` below `i` and `k + 1` from `i` on.
    let lower = if p >= 2 {
        let k = p - 2;
        let row = if k < i { k } else { k + 1 };
        Some(rows[row].key)
    } else {
        None
    };
    let upper = if p < n {
        let k = p - 1;
        let row = if k < i { k } else { k + 1 };
        Some(rows[row].key)
    } else {
        None
    };
    assert(opt_view(lower) == neighbor_pair(rest, p as int).0);
    assert(opt_view(upper) == neighbor_pair(rest, p as int).1);
    key_between(lower, upper)
}

/// No key is below an earlier one.
pub open spec fn keys_ascending(rows: Seq<Item>) -> bool {
    forall|i: int, j: int| 0 <= i < j < rows.len() ==> !(#[trigger] rows[j]).key@.lt((#[trigger] rows[i]).key@)
}

/// Puts rows read in any order into display order, comparing keys exactly:
/// the result holds the same rows, no key below an earlier one.
pub fn order_by_key(rows: Vec<Item>) -> (r: Vec<Item>)
    requires
        keys_wf(rows@),
    ensures
        r@.to_multiset() == rows@.to_multiset(),
        keys_wf(r@),
        keys_ascending(r@),
{
    broadcast use vstd::seq_lib::group_to_multiset_ensures, vstd::seq_lib::to_multiset_insert,
        vstd::multiset::group_multiset_axioms;

    let mut rest = rows;
    let mut out: Vec<Item> = Vec::new();
    proof {
        assert(out@.to_multiset().len() == 0);
        assert(out@.to_multiset() =~= Multiset::empty());
        assert(out@.to_multiset().add(rest@.to_multiset()) =~= rows@.to_multiset());
    }
    while rest.len() > 0
        invariant
            keys_wf(rest@),
            keys_wf(out@),
            keys_ascending(out@),
            out@.to_multiset().add(rest@.to_multiset()) == rows@.to_multiset(),
        decreases rest@.len(),
    {
        let ghost before = rest@;
        let x = rest.pop().unwrap();
        proof {
            assert(before =~= rest@.push(x));
            assert(before[before.len() - 1].key.wf());
        }
        let n = out.len();
        let mut j: usize = 0;
        while j < n && !less_than(&x.key, &out[j].key)
            invariant
                n == out@.len(),
                0 <= j <= n,
                forall|k: int| 0 <= k < j ==> !x.key@.lt((#[trigger] out@[k]).key@),
            decreases n - j,
        {
            j = j + 1;
        }
        let ghost o = out@;
        out.insert(j, x);
        proof {
            assert forall|a: int, b: int| 0 <= a < b < out@.len() implies !(#[trigger] out@[b]).key@.lt(
                (#[trigger] out@[a]).key@,
            ) by {
                if a != j && b != j {
                    let a0 = if a < j { a } else { a - 1 };
                    let b0 = if b < j { b } else { b - 1 };
                    assert(!o[b0].key@.lt(o[a0].key@));
                } else if a == j {
                    assert(o[j as int].key.wf());
                    assert(o[b - 1].key.wf());
                    if b - 1 > j {
                        assert(!o[b - 1].key@.lt(o[j as int].key@));
                        lemma_lt_le_transitive(x.key@, o[j as int].key@, o[b - 1].key@);
                    }
                }
            }
            assert forall|a: int| 0 <= a < out@.len() implies (#[trigger] out@[a]).key.wf() by {
                if a != j {
                    let a0 = if a < j { a } else { a - 1 };
                    assert(o[a0].key.wf());
                }
            }
            assert(out@ == o.insert(j as int, x));
            vstd::seq_lib::to_multiset_insert(o, j as int, x);
            vstd::seq_lib::to_multiset_build(rest@, x);
            assert(out@.to_multiset() == o.to_multiset().insert(x));
            assert(before.to_multiset() == rest@.to_multiset().insert(x));
            assert(o.to_multiset().add(before.to_multiset()) == rows@.to_multiset());
            assert(out@.to_multiset().add(rest@.to_multiset()) =~= o.to_multiset().add(before.to_multiset()));
        }
    }
    proof {
        assert(rest@ =~= Seq::<Item>::empty());
        assert(out@.to_multiset().add(rest@.to_multiset()) =~= out@.to_multiset());
    }
    out
}

} // verus!
