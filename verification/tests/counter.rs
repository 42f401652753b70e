use std::collections::HashMap;

use synonym_finder::counter::count_map::CountMap;
use synonym_finder::counter::Counter;
use synonym_finder::merger::merger::count;

fn build_test_vector(elements: &[&str]) -> Vec<String> {
    let mut result = Vec::<String>::new();
    for word in elements.iter() {
        result.push(word.to_string());
    }
    result
}

fn as_hash_map(m: &CountMap) -> HashMap<String, i32> {
    m.entries().into_iter().collect()
}

#[test]
fn count_words() {
    let v1 = build_test_vector(&["a", "b", "c", "d"]);

    let mut counter = Counter::new();
    let res = counter.count(&v1);

    let mut expected = HashMap::<String, i32>::new();
    expected.insert("b".to_string(), 1);
    expected.insert("a".to_string(), 1);
    expected.insert("c".to_string(), 1);
    expected.insert("d".to_string(), 1);

    assert_eq!(expected, as_hash_map(&res))
}

#[test]
fn empty_vector() {
    let v1 = build_test_vector(&[]);
    let mut counter = Counter::new();
    let res = counter.count(&v1);

    let expected = HashMap::<String, i32>::new();

    assert_eq!(expected, as_hash_map(&res))
}

#[test]
fn duplicates_in_a_vector() {
    let v1 = build_test_vector(&["a", "b", "c", "d", "b"]);
    let mut counter = Counter::new();
    let res = counter.count(&v1);

    let mut expected = HashMap::<String, i32>::new();
    expected.insert("b".to_string(), 2);
    expected.insert("a".to_string(), 1);
    expected.insert("c".to_string(), 1);
    expected.insert("d".to_string(), 1);

    assert_eq!(expected, as_hash_map(&res))
}

#[test]
fn count_accumulates_over_calls() {
    let mut counter = Counter::new();
    counter.count(&build_test_vector(&["x", "y"]));
    let res = counter.count(&build_test_vector(&["x", "z", "x"]));
    let mut expected = HashMap::<String, i32>::new();
    expected.insert("x".to_string(), 3);
    expected.insert("y".to_string(), 1);
    expected.insert("z".to_string(), 1);
    assert_eq!(expected, as_hash_map(&res));
    assert_eq!(expected, as_hash_map(counter.counts()));
}

#[test]
fn count_twice_equals_count_of_concatenation() {
    let a = build_test_vector(&["p", "q", "p"]);
    let b = build_test_vector(&["q", "r"]);
    let mut twice = Counter::new();
    twice.count(&a);
    twice.count(&b);
    let mut both = a.clone();
    both.extend(b.clone());
    let once = count(&both);
    assert_eq!(as_hash_map(twice.counts()), as_hash_map(&once));
}

#[test]
fn free_count_function() {
    let res = count(&build_test_vector(&["a", "a", "a", "b"]));
    assert_eq!(res.get(&"a".to_string()), 3);
    assert_eq!(res.get(&"b".to_string()), 1);
    assert_eq!(res.get(&"c".to_string()), 0);
    assert_eq!(res.entries().len(), 2);
}

#[test]
fn merge_adds_counts_and_keeps_word() {
    let mut a = Counter::with_word("happy".to_string());
    a.count(&build_test_vector(&["glad", "joyful"]));
    let mut b = Counter::with_word("other".to_string());
    b.count(&build_test_vector(&["glad", "cheerful", "glad"]));
    a.merge(&b);
    assert_eq!(a.word(), "happy");
    let mut expected = HashMap::<String, i32>::new();
    expected.insert("glad".to_string(), 3);
    expected.insert("joyful".to_string(), 1);
    expected.insert("cheerful".to_string(), 1);
    assert_eq!(expected, as_hash_map(a.counts()));
}

#[test]
fn merge_is_commutative_on_counts() {
    let mut a = Counter::new();
    a.count(&build_test_vector(&["x", "y", "y"]));
    let mut b = Counter::new();
    b.count(&build_test_vector(&["y", "z"]));
    let mut ab = Counter::new();
    ab.merge(&a);
    ab.merge(&b);
    let mut ba = Counter::new();
    ba.merge(&b);
    ba.merge(&a);
    assert_eq!(as_hash_map(ab.counts()), as_hash_map(ba.counts()));
}

#[test]
fn ranking_is_sorted_by_count() {
    let mut c = Counter::with_word("w".to_string());
    c.count(&build_test_vector(&["a", "b", "b", "c", "c", "c", "d"]));
    let r = c.ranking();
    assert_eq!(r.len(), 4);
    assert_eq!(r[0], ("c".to_string(), 3));
    assert_eq!(r[1], ("b".to_string(), 2));
    assert_eq!(r[2].1, 1);
    assert_eq!(r[3].1, 1);
    let mut tail: Vec<String> = vec![r[2].0.clone(), r[3].0.clone()];
    tail.sort();
    assert_eq!(tail, vec!["a".to_string(), "d".to_string()]);
}

#[test]
fn ranking_of_empty_counter() {
    let c = Counter::new();
    assert!(c.ranking().is_empty());
    assert_eq!(c.word(), "");
}

#[test]
fn clone_keeps_counts() {
    let m = count(&build_test_vector(&["a", "b", "a"]));
    let n = m.clone();
    assert_eq!(as_hash_map(&m), as_hash_map(&n));
}

#[test]
fn add_to_count_map() {
    let mut m = CountMap::new();
    m.add(&"k".to_string(), 2);
    m.add(&"k".to_string(), 3);
    m.add(&"j".to_string(), 1);
    assert_eq!(m.get(&"k".to_string()), 5);
    assert_eq!(m.get(&"j".to_string()), 1);
}

#[test]
fn counter_clone_keeps_word_and_counts() {
    let mut c = Counter::with_word("w".to_string());
    c.count(&build_test_vector(&["a", "b", "a"]));
    let d = c.clone();
    assert_eq!(d.word(), "w");
    assert_eq!(as_hash_map(d.counts()), as_hash_map(c.counts()));
}
