use rustengan::log::tail;
use rustengan::pattern::parse_decimal;
use rustengan::sets::{collect, difference, elements, insert_all};
use rustengan::table::StrMap;
use rustengan::tally::{copy_counts, sum_values};
use std::collections::{BTreeMap, HashSet};

fn sorted(mut v: Vec<usize>) -> Vec<usize> {
    v.sort();
    v
}

#[test]
fn decimal_numbers_are_read() {
    assert_eq!(parse_decimal("0"), Some(0));
    assert_eq!(parse_decimal("7"), Some(7));
    assert_eq!(parse_decimal("42"), Some(42));
    assert_eq!(parse_decimal("007"), Some(7));
    assert_eq!(parse_decimal("18446744073709551615"), Some(usize::MAX));
    assert_eq!(parse_decimal("0018446744073709551615"), Some(usize::MAX));
}

#[test]
fn what_is_no_decimal_number_is_not_read() {
    assert_eq!(parse_decimal(""), None);
    assert_eq!(parse_decimal("-1"), None);
    assert_eq!(parse_decimal("+1"), None);
    assert_eq!(parse_decimal("1 "), None);
    assert_eq!(parse_decimal("12a"), None);
    assert_eq!(parse_decimal("a12"), None);
    assert_eq!(parse_decimal("١٢"), None);
    assert_eq!(parse_decimal("18446744073709551616"), None);
    assert_eq!(parse_decimal("99999999999999999999999999"), None);
}

#[test]
fn a_table_keeps_one_value_per_key() {
    let mut t: StrMap<usize> = StrMap::new();
    assert_eq!(t.len(), 0);
    assert_eq!(t.get(&"a".to_string()), None);
    assert_eq!(t.insert("a".to_string(), 1), None);
    assert_eq!(t.insert("b".to_string(), 2), None);
    assert_eq!(t.insert("a".to_string(), 3), Some(1));
    assert_eq!(t.len(), 2);
    assert_eq!(t.get(&"a".to_string()), Some(&3));
    assert_eq!(t.get(&"b".to_string()), Some(&2));
    assert!(t.contains_key(&"b".to_string()));
    assert!(!t.contains_key(&"c".to_string()));
    let at = t.position(&"b".to_string()).expect("a place");
    assert_eq!(t.key_at(at), "b");
    assert_eq!(*t.value_at(at), 2);
    assert_eq!(t.position(&"c".to_string()), None);

    assert_eq!(t.remove(&"c".to_string()), None);
    assert_eq!(t.remove(&"a".to_string()), Some(3));
    assert_eq!(t.remove(&"a".to_string()), None);
    assert_eq!(t.len(), 1);
    assert_eq!(t.get(&"a".to_string()), None);
    assert_eq!(t.get(&"b".to_string()), Some(&2));
}

#[test]
fn a_table_can_be_walked_by_index() {
    let mut t: StrMap<usize> = StrMap::new();
    for (i, k) in ["x", "y", "z", "y"].iter().enumerate() {
        t.insert(k.to_string(), i);
    }
    let mut all: Vec<(String, usize)> =
        (0..t.len()).map(|i| (t.key_at(i).clone(), *t.value_at(i))).collect();
    all.sort();
    assert_eq!(all, vec![("x".to_string(), 0), ("y".to_string(), 3), ("z".to_string(), 2)]);
}

#[test]
fn counters_are_summed() {
    let mut t: StrMap<usize> = StrMap::new();
    assert_eq!(sum_values(&t), Some(0));
    t.insert("a".to_string(), 5);
    t.insert("b".to_string(), 0);
    t.insert("c".to_string(), 37);
    assert_eq!(sum_values(&t), Some(42));
    t.insert("d".to_string(), usize::MAX - 42);
    assert_eq!(sum_values(&t), Some(usize::MAX));
    t.insert("b".to_string(), 1);
    assert_eq!(sum_values(&t), None);

    let copy = copy_counts(&t);
    assert_eq!(copy.len(), 4);
    for i in 0..t.len() {
        assert_eq!(copy.get(t.key_at(i)), Some(t.value_at(i)));
    }
}

#[test]
fn sets_of_numbers() {
    let all = collect(&vec![3, 1, 2, 3, 1]);
    assert_eq!(all.len(), 3);
    assert_eq!(sorted(elements(&all)), vec![1, 2, 3]);
    let known = collect(&vec![2, 9]);
    assert_eq!(sorted(difference(&all, &known)), vec![1, 3]);
    assert_eq!(difference(&all, &all), Vec::<usize>::new());
    assert_eq!(sorted(difference(&all, &HashSet::new())), vec![1, 2, 3]);
    assert_eq!(difference(&HashSet::new(), &all), Vec::<usize>::new());

    let mut target = known;
    insert_all(&mut target, &vec![9, 4, 4]);
    assert_eq!(sorted(elements(&target)), vec![2, 4, 9]);
    insert_all(&mut target, &Vec::new());
    assert_eq!(target.len(), 3);
}

#[test]
fn the_tail_of_a_log_ascends() {
    let mut log: BTreeMap<usize, usize> = BTreeMap::new();
    assert_eq!(tail(&log, 0), vec![]);
    for (offset, value) in [(9usize, 90usize), (2, 20), (5, 50), (usize::MAX, 1)] {
        log.insert(offset, value);
    }
    assert_eq!(tail(&log, 0), vec![(2, 20), (5, 50), (9, 90), (usize::MAX, 1)]);
    assert_eq!(tail(&log, 5), vec![(5, 50), (9, 90), (usize::MAX, 1)]);
    assert_eq!(tail(&log, 6), vec![(9, 90), (usize::MAX, 1)]);
    assert_eq!(tail(&log, usize::MAX), vec![(usize::MAX, 1)]);
}
