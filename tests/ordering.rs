use mytodo::fraction::{compare, key_between, less_than, Fraction, OrderError};
use mytodo::list::OrderedList;
use mytodo::reorder::{find_index, order_by_key, plan_move, Item};
use std::cmp::Ordering;

fn f(n: u64, d: u64) -> Fraction {
    Fraction::new(n, d)
}

fn item(id: u64, n: u64, d: u64, text: &str) -> Item {
    Item { id, key: f(n, d), payload: text.to_string() }
}

fn keys(list: &OrderedList) -> Vec<(u64, u64)> {
    list.read_ordered().iter().map(|i| (i.key.numerator, i.key.denominator)).collect()
}

fn ids(list: &OrderedList) -> Vec<u64> {
    list.read_ordered().iter().map(|i| i.id).collect()
}

fn list_of(n: usize) -> (OrderedList, Vec<u64>) {
    let mut list = OrderedList::new();
    let mut made = Vec::new();
    for k in 0..n {
        made.push(list.append(format!("item {}", k)).unwrap().id);
    }
    (list, made)
}

#[test]
fn compare_cross_multiplies() {
    assert_eq!(compare(&f(1, 2), &f(2, 3)), Ordering::Less);
    assert_eq!(compare(&f(2, 3), &f(1, 2)), Ordering::Greater);
    assert_eq!(compare(&f(2, 4), &f(1, 2)), Ordering::Equal);
    assert_eq!(compare(&f(u64::MAX, 1), &f(u64::MAX - 1, 1)), Ordering::Greater);
    assert!(less_than(&f(3, 2), &f(2, 1)));
    assert!(!less_than(&f(2, 1), &f(4, 2)));
}

#[test]
fn key_between_mediant() {
    assert_eq!(key_between(Some(f(2, 1)), Some(f(3, 1))), Ok(f(5, 2)));
    assert_eq!(key_between(Some(f(1, 2)), Some(f(1, 1))), Ok(f(2, 3)));
}

#[test]
fn key_between_boundaries() {
    assert_eq!(key_between(None, None), Ok(f(1, 1)));
    assert_eq!(key_between(Some(f(3, 1)), None), Ok(f(4, 1)));
    assert_eq!(key_between(Some(f(5, 2)), None), Ok(f(6, 2)));
    assert_eq!(key_between(None, Some(f(1, 1))), Ok(f(1, 2)));
    assert_eq!(key_between(None, Some(f(3, 4))), Ok(f(3, 5)));
}

#[test]
fn key_between_degenerate() {
    assert_eq!(key_between(Some(f(2, 1)), Some(f(1, 1))), Err(OrderError::DegenerateRange));
    assert_eq!(key_between(Some(f(1, 1)), Some(f(2, 2))), Err(OrderError::DegenerateRange));
    assert_eq!(key_between(None, Some(f(0, 1))), Err(OrderError::DegenerateRange));
}

#[test]
fn key_between_overflow() {
    assert_eq!(key_between(Some(f(u64::MAX, 1)), None), Err(OrderError::Overflow));
    assert_eq!(key_between(None, Some(f(1, u64::MAX))), Err(OrderError::Overflow));
    assert_eq!(key_between(Some(f(1, u64::MAX)), Some(f(1, 1))), Err(OrderError::Overflow));
}

#[test]
fn mediant_lies_between() {
    let pairs = [(f(1, 1), f(2, 1)), (f(1, 3), f(1, 2)), (f(0, 1), f(1, 7)), (f(5, 2), f(3, 1))];
    for (lo, up) in pairs {
        let k = key_between(Some(lo), Some(up)).unwrap();
        assert_eq!(compare(&lo, &k), Ordering::Less);
        assert_eq!(compare(&k, &up), Ordering::Less);
    }
}

#[test]
fn append_gives_integer_keys() {
    let mut list = OrderedList::new();
    let a = list.append("a".to_string()).unwrap();
    assert_eq!(a.key, f(1, 1));
    assert_eq!(a.payload, "a");
    let b = list.append("b".to_string()).unwrap();
    assert_eq!(b.key, f(2, 1));
    assert_ne!(a.id, b.id);
    assert_eq!(list.count(), 2);
}

#[test]
fn move_to_front() {
    let (mut list, made) = list_of(3);
    let (a, b, c) = (made[0], made[1], made[2]);
    let k = list.move_to(c, 1).unwrap();
    assert_eq!(compare(&k, &f(1, 1)), Ordering::Less);
    assert_eq!(k, f(1, 2));
    assert_eq!(list.key_of(a), Some(f(1, 1)));
    assert_eq!(list.key_of(b), Some(f(2, 1)));
    assert_eq!(ids(&list), vec![c, a, b]);
}

#[test]
fn move_to_middle() {
    let (mut list, made) = list_of(2);
    let d = list.append("d".to_string()).unwrap();
    assert_eq!(d.key, f(3, 1));
    let k = list.move_to(d.id, 2).unwrap();
    // The neighbours of the second slot among the other items are 1/1 and 2/1.
    assert_eq!(k, f(3, 2));
    assert_eq!(ids(&list), vec![made[0], d.id, made[1]]);
}

#[test]
fn move_to_last() {
    let (mut list, made) = list_of(3);
    let k = list.move_to(made[0], 3).unwrap();
    assert_eq!(k, f(4, 1));
    assert_eq!(ids(&list), vec![made[1], made[2], made[0]]);
}

#[test]
fn move_single_item_is_no_op() {
    let (mut list, made) = list_of(1);
    assert_eq!(list.move_to(made[0], 1), Ok(f(1, 1)));
    assert_eq!(list.key_of(made[0]), Some(f(1, 1)));
    assert_eq!(keys(&list), vec![(1, 1)]);
}

#[test]
fn repeated_move_gives_same_key() {
    let (mut list, made) = list_of(4);
    let first = list.move_to(made[3], 2).unwrap();
    let second = list.move_to(made[3], 2).unwrap();
    assert_eq!(first, second);
    assert_eq!(first, f(3, 2));
    let front = list.move_to(made[2], 1).unwrap();
    assert_eq!(list.move_to(made[2], 1).unwrap(), front);
}

#[test]
fn move_changes_one_key_only() {
    let (mut list, made) = list_of(5);
    let before = list.read_ordered();
    list.move_to(made[4], 3).unwrap();
    let after = list.read_ordered();
    assert_eq!(before.len(), after.len());
    for it in &before {
        let now = after.iter().find(|x| x.id == it.id).unwrap();
        assert_eq!(now.payload, it.payload);
        if it.id != made[4] {
            assert_eq!(now.key, it.key);
        } else {
            assert_ne!(now.key, it.key);
        }
    }
}

#[test]
fn move_errors() {
    let mut empty = OrderedList::new();
    assert_eq!(empty.move_to(1, 1), Err(OrderError::EmptyList));
    let (mut list, made) = list_of(3);
    assert_eq!(list.move_to(made[0], 0), Err(OrderError::PositionOutOfRange));
    assert_eq!(list.move_to(made[0], 4), Err(OrderError::PositionOutOfRange));
    assert_eq!(list.move_to(made[0], -2), Err(OrderError::PositionOutOfRange));
    assert_eq!(list.move_to(99, 2), Err(OrderError::NotFound));
    assert_eq!(keys(&list), vec![(1, 1), (2, 1), (3, 1)]);
}

#[test]
fn remove_keeps_other_keys() {
    let (mut list, made) = list_of(3);
    let gone = list.remove(made[1]).unwrap();
    assert_eq!(gone.id, made[1]);
    assert_eq!(gone.key, f(2, 1));
    assert_eq!(keys(&list), vec![(1, 1), (3, 1)]);
    assert_eq!(list.remove(made[1]).unwrap_err(), OrderError::NotFound);
    let next = list.append("x".to_string()).unwrap();
    assert_eq!(next.key, f(4, 1));
    assert!(!made.contains(&next.id));
}

#[test]
fn keys_stay_ordered_over_many_operations() {
    let (mut list, made) = list_of(6);
    let steps: [(usize, i64); 8] = [(5, 1), (0, 6), (3, 2), (2, 4), (4, 3), (1, 1), (3, 5), (5, 2)];
    for (who, pos) in steps {
        list.move_to(made[who], pos).unwrap();
        assert_eq!(list.read_ordered()[(pos - 1) as usize].id, made[who]);
    }
    list.remove(made[2]).unwrap();
    list.append("late".to_string()).unwrap();
    let rows = list.read_ordered();
    for w in rows.windows(2) {
        assert_eq!(compare(&w[0].key, &w[1].key), Ordering::Less);
    }
}

#[test]
fn list_ordered_gives_texts() {
    let (mut list, made) = list_of(3);
    list.move_to(made[2], 1).unwrap();
    assert_eq!(list.list_ordered(), vec!["item 2", "item 0", "item 1"]);
}

#[test]
fn plan_move_over_rows() {
    let rows = vec![item(7, 1, 1, "a"), item(8, 2, 1, "b"), item(9, 3, 1, "c")];
    assert_eq!(plan_move(&rows, 9, 1), Ok(f(1, 2)));
    assert_eq!(plan_move(&rows, 9, 2), Ok(f(3, 2)));
    assert_eq!(plan_move(&rows, 7, 3), Ok(f(4, 1)));
    assert_eq!(plan_move(&rows, 8, 2), Ok(f(4, 2)));
    assert_eq!(plan_move(&rows, 10, 2), Err(OrderError::NotFound));
    assert_eq!(plan_move(&rows, 7, 4), Err(OrderError::PositionOutOfRange));
    assert_eq!(plan_move(&Vec::new(), 7, 1), Err(OrderError::EmptyList));
    assert_eq!(find_index(&rows, 8), Some(1));
    assert_eq!(find_index(&rows, 1), None);
}

#[test]
fn plan_move_reports_overflow() {
    let rows = vec![item(1, u64::MAX, 1, "a"), item(2, 5, 1, "b")];
    assert_eq!(plan_move(&rows, 2, 2), Err(OrderError::Overflow));
}

#[test]
fn order_by_key_sorts_exactly() {
    let rows = vec![item(1, 3, 1, "c"), item(2, 1, 3, "a"), item(3, 5, 2, "b"), item(4, 1, 2, "x")];
    let sorted = order_by_key(rows);
    let got: Vec<u64> = sorted.iter().map(|i| i.id).collect();
    assert_eq!(got, vec![2, 4, 3, 1]);
    assert_eq!(order_by_key(Vec::new()).len(), 0);
}
