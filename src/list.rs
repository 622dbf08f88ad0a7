//! An ordered list held in memory: rows kept in ascending key order, ids never
//! reused, and each operation at most one key write.
use vstd::prelude::*;
use crate::fraction::{
    Fraction, OrderError, Rational, compare_spec, key_between, key_between_spec, lemma_key_between_bounds,
    lemma_lt_transitive, opt_view, zero,
};
use crate::reorder::{
    Item, find_index, has_id, index_of, is_first_index, keys_of, keys_wf, lemma_first_index_unique,
    move_outcome_ok, neighbor_pair, planned_key, plan_move, strictly_increasing,
};

verus! {

/// Ids are pairwise distinct.
pub open spec fn ids_unique(rows: Seq<Item>) -> bool {
    forall|i: int, j: int| 0 <= i < rows.len() && 0 <= j < rows.len() && i != j ==> (#[trigger] rows[i]).id
        != (#[trigger] rows[j]).id
}

/// The invariant of a list: valid keys in strictly ascending order, distinct
/// ids, each below the next id to hand out.
pub open spec fn list_wf(rows: Seq<Item>, next_id: nat) -> bool {
    &&& keys_wf(rows)
    &&& strictly_increasing(keys_of(rows))
    &&& ids_unique(rows)
    &&& forall|i: int| 0 <= i < rows.len() ==> (#[trigger] rows[i]).key.numerator > 0
    &&& forall|i: int| 0 <= i < rows.len() ==> (#[trigger] rows[i]).id < next_id
}

/// `rows` after the row with id `id` is taken out and put back at the 1-based
/// `position` with key `key`, all else of it kept.
pub open spec fn moved(rows: Seq<Item>, id: u64, position: int, key: Fraction) -> Seq<Item> {
    let i = index_of(rows, id);
    rows.remove(i).insert(
        position - 1,
        Item { id: rows[i].id, key: key, payload: rows[i].payload },
    )
}

/// The key of the last row, where there is one.
pub open spec fn last_key(rows: Seq<Item>) -> Option<Rational> {
    if rows.len() == 0 {
        None
    } else {
        Some(rows.last().key@)
    }
}

proof fn lemma_remove_wf(rows: Seq<Item>, next_id: nat, i: int)
    requires
        list_wf(rows, next_id),
        0 <= i < rows.len(),
    ensures
        list_wf(rows.remove(i), next_id),
        !has_id(rows.remove(i), rows[i].id),
{
    let rest = rows.remove(i);
    assert forall|a: int, b: int| 0 <= a < b < rest.len() implies (#[trigger] keys_of(rest)[a]).lt(
        #[trigger] keys_of(rest)[b],
    ) by {
        let a0 = if a < i { a } else { a + 1 };
        let b0 = if b < i { b } else { b + 1 };
        assert(keys_of(rows)[a0].lt(keys_of(rows)[b0]));
    }
    assert forall|a: int, b: int| 0 <= a < rest.len() && 0 <= b < rest.len() && a != b implies (
    #[trigger] rest[a]).id != (#[trigger] rest[b]).id by {
        let a0 = if a < i { a } else { a + 1 };
        let b0 = if b < i { b } else { b + 1 };
        assert(rows[a0].id != rows[b0].id);
    }
    if has_id(rest, rows[i].id) {
        let a = choose|a: int| 0 <= a < rest.len() && (#[trigger] rest[a]).id == rows[i].id;
        let a0 = if a < i { a } else { a + 1 };
        assert(rows[a0].id == rows[i].id);
    }
}

proof fn lemma_insert_wf(rest: Seq<Item>, next_id: nat, pos: int, x: Item)
    requires
        list_wf(rest, next_id),
        0 <= pos <= rest.len(),
        x.key.wf(),
        x.key.numerator > 0,
        x.id < next_id,
        !has_id(rest, x.id),
        pos > 0 ==> rest[pos - 1].key@.lt(x.key@),
        pos < rest.len() ==> x.key@.lt(rest[pos].key@),
    ensures
        list_wf(rest.insert(pos, x), next_id),
{
    let s = rest.insert(pos, x);
    assert forall|a: int, b: int| 0 <= a < b < s.len() implies (#[trigger] keys_of(s)[a]).lt(
        #[trigger] keys_of(s)[b],
    ) by {
        if b < pos {
            assert(keys_of(rest)[a].lt(keys_of(rest)[b]));
        } else if a > pos {
            assert(keys_of(rest)[a - 1].lt(keys_of(rest)[b - 1]));
        } else if a < pos && b > pos {
            assert(keys_of(rest)[a].lt(keys_of(rest)[b - 1]));
        } else if a == pos {
            if b - 1 > pos {
                assert(keys_of(rest)[pos].lt(keys_of(rest)[b - 1]));
                lemma_lt_transitive(x.key@, rest[pos].key@, rest[b - 1].key@);
            }
        } else {
            if a < pos - 1 {
                assert(keys_of(rest)[a].lt(keys_of(rest)[pos - 1]));
                lemma_lt_transitive(rest[a].key@, rest[pos - 1].key@, x.key@);
            }
        }
    }
    assert forall|a: int, b: int| 0 <= a < s.len() && 0 <= b < s.len() && a != b implies (
    #[trigger] s[a]).id != (#[trigger] s[b]).id by {
        if a != pos && b != pos {
            let a0 = if a < pos { a } else { a - 1 };
            let b0 = if b < pos { b } else { b - 1 };
            assert(rest[a0].id != rest[b0].id);
        } else if a == pos {
            let b0 = if b < pos { b } else { b - 1 };
            assert(rest[b0].id != x.id);
        } else {
            let a0 = if a < pos { a } else { a - 1 };
            assert(rest[a0].id != x.id);
        }
    }
    assert forall|a: int| 0 <= a < s.len() implies (#[trigger] s[a]).key.wf() && s[a].key.numerator > 0
        && s[a].id < next_id by {
        if a != pos {
            let a0 = if a < pos { a } else { a - 1 };
            assert(rest[a0].key.wf());
        }
    }
}

proof fn lemma_planned_key_fits_slot(rows: Seq<Item>, next_id: nat, id: u64, position: int)
    requires
        list_wf(rows, next_id),
        move_outcome_ok(rows, id, position),
    ensures
        planned_key(rows, id, position) matches Some(q) && q.valid() && q.num > 0 && (position > 1 ==> rows.remove(
            index_of(rows, id),
        )[position - 2].key@.lt(q)) && (position < rows.len() ==> q.lt(
            rows.remove(index_of(rows, id))[position - 1].key@,
        )),
{
    let i = index_of(rows, id);
    let w = choose|w: int| 0 <= w < rows.len() && (#[trigger] rows[w]).id == id;
    if is_first_index(rows, id, w) {
        lemma_first_index_unique(rows, id, w);
    } else {
        let v = choose|v: int| 0 <= v < w && (#[trigger] rows[v]).id == id;
        assert(rows[v].id == rows[w].id);
    }
    assert(is_first_index(rows, id, i));
    if rows.len() == 1 {
        assert(rows[0].key.wf());
    } else {
        let rest_rows = rows.remove(i);
        lemma_remove_wf(rows, next_id, i);
        let rest = keys_of(rest_rows);
        let (lo, up) = neighbor_pair(rest, position);
        if position >= 2 {
            assert(rest[position - 2] == rest_rows[position - 2].key@);
            assert(rest_rows[position - 2].key.wf());
        }
        if position <= rest.len() {
            assert(rest[position - 1] == rest_rows[position - 1].key@);
            assert(rest_rows[position - 1].key.wf());
            assert(rest_rows[position - 1].key.numerator > 0);
            if position >= 2 {
                assert(rest[position - 2].lt(rest[position - 1]));
            }
        }
        assert(rest.len() == rows.len() - 1);
        if position == 1 {
            assert(zero().lt(rest[0]));
        }
        assert(key_between_spec(lo, up) is Some);
        lemma_key_between_bounds(lo, up);
    }
}

/// A move writes one key and nothing else: the moved item keeps its id and
/// text, and the other items keep their keys, texts and relative order.
proof fn lemma_moved_shape(rows: Seq<Item>, id: u64, position: int, key: Fraction)
    requires
        ids_unique(rows),
        move_outcome_ok(rows, id, position),
    ensures
        is_first_index(rows, id, index_of(rows, id)),
        !has_id(rows.remove(index_of(rows, id)), id),
        moved(rows, id, position, key).len() == rows.len(),
        moved(rows, id, position, key)[position - 1] == (Item {
            id: id,
            key: key,
            payload: rows[index_of(rows, id)].payload,
        }),
        moved(rows, id, position, key).remove(position - 1) == rows.remove(index_of(rows, id)),
        is_first_index(moved(rows, id, position, key), id, position - 1),
{
    let w = choose|w: int| 0 <= w < rows.len() && (#[trigger] rows[w]).id == id;
    if is_first_index(rows, id, w) {
        lemma_first_index_unique(rows, id, w);
    } else {
        let v = choose|v: int| 0 <= v < w && (#[trigger] rows[v]).id == id;
        assert(rows[v].id == rows[w].id);
    }
    let i = index_of(rows, id);
    let rest = rows.remove(i);
    if has_id(rest, id) {
        let a = choose|a: int| 0 <= a < rest.len() && (#[trigger] rest[a]).id == id;
        let a0 = if a < i { a } else { a + 1 };
        assert(rows[a0].id == rows[i].id);
    }
    let s = moved(rows, id, position, key);
    assert(s.remove(position - 1) =~= rest);
    assert forall|j: int| 0 <= j < position - 1 implies (#[trigger] s[j]).id != id by {
        assert(s[j] == rest[j]);
    }
}

/// Moving an item to a position twice in a row, with no change between, gives
/// it the same key both times: the second move finds the same neighbours.
pub proof fn lemma_move_twice_same_key(rows: Seq<Item>, id: u64, position: int, key: Fraction)
    requires
        ids_unique(rows),
        move_outcome_ok(rows, id, position),
        planned_key(rows, id, position) == Some(key@),
    ensures
        move_outcome_ok(moved(rows, id, position, key), id, position),
        planned_key(moved(rows, id, position, key), id, position) == Some(key@),
{
    lemma_moved_shape(rows, id, position, key);
    let s = moved(rows, id, position, key);
    lemma_first_index_unique(s, id, position - 1);
    if rows.len() == 1 {
        assert(s[0].key == key);
    }
}

/// A user-reorderable list whose display order is the order of its keys.
pub struct OrderedList {
    items: Vec<Item>,
    next_id: u64,
}

impl View for OrderedList {
    type V = Seq<Item>;

    /// The rows in display order.
    closed spec fn view(&self) -> Seq<Item> {
        self.items@
    }
}

impl OrderedList {
    /// The id that the next appended item receives.
    pub closed spec fn next_id_spec(&self) -> nat {
        self.next_id as nat
    }

    pub open spec fn wf(&self) -> bool {
        list_wf(self@, self.next_id_spec())
    }

    /// An empty list.
    pub fn new() -> (r: OrderedList)
        ensures
            r.wf(),
            r@ == Seq::<Item>::empty(),
            r.next_id_spec() == 1,
    {
        OrderedList { items: Vec::new(), next_id: 1 }
    }

    /// The number of items.
    pub fn count(&self) -> (r: usize)
        ensures
            r == self@.len(),
    {
        self.items.len()
    }

    /// Adds an item after the last one, with the key just past the last key
    /// (`1/1` in an empty list) and the next id.
    pub fn append(&mut self, payload: String) -> (r: Result<Item, OrderError>)
        requires
            old(self).wf(),
        ensures
            final(self).wf(),
            match r {
                Ok(item) => {
                    &&& item.id == old(self).next_id_spec()
                    &&& key_between_spec(last_key(old(self)@), None) == Some(item.key@)
                    &&& item.payload == payload
                    &&& final(self)@ == old(self)@.push(item)
                    &&& final(self).next_id_spec() == old(self).next_id_spec() + 1
                },
                Err(e) => {
                    &&& e == OrderError::Overflow
                    &&& final(self)@ == old(self)@
                    &&& final(self).next_id_spec() == old(self).next_id_spec()
                    &&& (old(self).next_id_spec() == u64::MAX || (key_between_spec(last_key(old(self)@), None) matches Some(
                        q,
                    ) && !q.fits()))
                },
            },
    {
        let n = self.items.len();
        let last = if n == 0 {
            None
        } else {
            Some(self.items[n - 1].key)
        };
        proof {
            assert(opt_view(last) == last_key(self@));
            if n > 0 {
                assert(self.items@[n - 1].key.wf());
            }
        }
        let key = match key_between(last, None) {
            Ok(k) => k,
            Err(e) => return Err(e),
        };
        if self.next_id == u64::MAX {
            return Err(OrderError::Overflow);
        }
        proof {
            if n > 0 {
                assert(self.items@[n - 1].key.numerator > 0);
            }
            lemma_key_between_bounds(last_key(self@), None);
            if has_id(self@, self.next_id) {
                let a = choose|a: int| 0 <= a < self@.len() && (#[trigger] self@[a]).id == self.next_id;
            }
            lemma_insert_wf(self@, self.next_id as nat + 1, n as int, Item { id: self.next_id, key, payload });
        }
        let item = Item { id: self.next_id, key, payload: payload.clone() };
        self.items.push(Item { id: self.next_id, key, payload });
        self.next_id = self.next_id + 1;
        proof {
            assert(self.items@ =~= old(self)@.insert(n as int, item));
        }
        Ok(item)
    }

    /// Moves item `id` to the 1-based display `position` by giving it one new
    /// key, the one that [`plan_move`] computes; no other item changes.
    pub fn move_to(&mut self, id: u64, position: i64) -> (r: Result<Fraction, OrderError>)
        requires
            old(self).wf(),
        ensures
            final(self).wf(),
            final(self).next_id_spec() == old(self).next_id_spec(),
            old(self)@.len() == 0 ==> r == Err::<Fraction, OrderError>(OrderError::EmptyList),
            old(self)@.len() > 0 && !(1 <= position <= old(self)@.len()) ==> r == Err::<Fraction, OrderError>(
                OrderError::PositionOutOfRange,
            ),
            old(self)@.len() > 0 && 1 <= position <= old(self)@.len() && !has_id(old(self)@, id) ==> r == Err::<
                Fraction,
                OrderError,
            >(OrderError::NotFound),
            r is Err ==> final(self)@ == old(self)@,
            move_outcome_ok(old(self)@, id, position as int) ==> match r {
                Ok(k) => {
                    &&& planned_key(old(self)@, id, position as int) == Some(k@)
                    &&& final(self)@ == moved(old(self)@, id, position as int, k)
                    &&& final(self)@[position - 1] == (Item {
                        id: id,
                        key: k,
                        payload: old(self)@[index_of(old(self)@, id)].payload,
                    })
                    &&& final(self)@.remove(position - 1) == old(self)@.remove(index_of(old(self)@, id))
                },
                Err(e) => e == OrderError::Overflow && (planned_key(old(self)@, id, position as int) matches Some(q)
                    && !q.fits()),
            },
    {
        proof {
            if move_outcome_ok(self@, id, position as int) {
                lemma_planned_key_fits_slot(self@, self.next_id as nat, id, position as int);
            }
        }
        let key = match plan_move(&self.items, id, position) {
            Ok(k) => k,
            Err(e) => return Err(e),
        };
        let i = match find_index(&self.items, id) {
            Some(i) => i,
            None => return Err(OrderError::NotFound),
        };
        let p = position as usize;
        proof {
            lemma_remove_wf(self@, self.next_id as nat, i as int);
            lemma_moved_shape(self@, id, position as int, key);
        }
        let mut item = self.items.remove(i);
        item.key = key;
        proof {
            lemma_insert_wf(self@, self.next_id as nat, p - 1, item);
        }
        self.items.insert(p - 1, item);
        Ok(key)
    }

    /// Deletes item `id`, leaving every other key as it was.
    pub fn remove(&mut self, id: u64) -> (r: Result<Item, OrderError>)
        requires
            old(self).wf(),
        ensures
            final(self).wf(),
            final(self).next_id_spec() == old(self).next_id_spec(),
            !has_id(old(self)@, id) ==> r == Err::<Item, OrderError>(OrderError::NotFound) && final(self)@ == old(
                self,
            )@,
            has_id(old(self)@, id) ==> r == Ok::<Item, OrderError>(old(self)@[index_of(old(self)@, id)])
                && final(self)@ == old(self)@.remove(index_of(old(self)@, id)),
    {
        let i = match find_index(&self.items, id) {
            Some(i) => i,
            None => return Err(OrderError::NotFound),
        };
        proof {
            lemma_remove_wf(self@, self.next_id as nat, i as int);
        }
        let item = self.items.remove(i);
        Ok(item)
    }

    /// The key of item `id`, where the list holds it.
    pub fn key_of(&self, id: u64) -> (r: Option<Fraction>)
        ensures
            !has_id(self@, id) ==> r is None,
            has_id(self@, id) ==> r == Some(self@[index_of(self@, id)].key),
    {
        match find_index(&self.items, id) {
            Some(i) => Some(self.items[i].key),
            None => None,
        }
    }

    /// The items in display order, ascending by key.
    pub fn read_ordered(&self) -> (r: Vec<Item>)
        ensures
            r@ == self@,
    {
        let mut out: Vec<Item> = Vec::new();
        let n = self.items.len();
        let mut i: usize = 0;
        while i < n
            invariant
                n == self@.len(),
                0 <= i <= n,
                out@ == self@.subrange(0, i as int),
            decreases n - i,
        {
            let it = &self.items[i];
            out.push(Item { id: it.id, key: it.key, payload: it.payload.clone() });
            i = i + 1;
            proof {
                assert(out@ =~= self@.subrange(0, i as int));
            }
        }
        proof {
            assert(self@.subrange(0, n as int) =~= self@);
        }
        out
    }

    /// The texts of the items in display order.
    pub fn list_ordered(&self) -> (r: Vec<String>)
        ensures
            r@.len() == self@.len(),
            forall|i: int| 0 <= i < r@.len() ==> r@[i] == (#[trigger] self@[i]).payload,
    {
        let mut out: Vec<String> = Vec::new();
        let n = self.items.len();
        let mut i: usize = 0;
        while i < n
            invariant
                n == self@.len(),
                0 <= i <= n,
                out@.len() == i,
                forall|j: int| 0 <= j < i ==> out@[j] == (#[trigger] self@[j]).payload,
            decreases n - i,
        {
            out.push(self.items[i].payload.clone());
            i = i + 1;
        }
        out
    }
}

/// In every list that `new`, `append`, `move_to` and `remove` build, the keys
/// read in display order ascend strictly: each compares less than every later
/// one, by the cross-multiplication comparison.
pub proof fn lemma_keys_ascend(list: OrderedList)
    requires
        list.wf(),
    ensures
        forall|i: int, j: int|
            0 <= i < j < list@.len() ==> compare_spec(
                (#[trigger] list@[i]).key@,
                (#[trigger] list@[j]).key@,
            ) == core::cmp::Ordering::Less,
{
    assert forall|i: int, j: int| 0 <= i < j < list@.len() implies compare_spec(
        (#[trigger] list@[i]).key@,
        (#[trigger] list@[j]).key@,
    ) == core::cmp::Ordering::Less by {
        assert(keys_of(list@)[i].lt(keys_of(list@)[j]));
    }
}

} // verus!
