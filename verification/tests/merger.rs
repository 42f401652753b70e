use synonym_finder::merger::merger::merge;

fn assert_contains(result: &Vec<String>, expected: &[&str]) {
    for word in expected.iter() {
        assert!(result.contains(&word.to_string()));
    }
}

fn build_test_vector(elements: &[&str]) -> Vec<String> {
    let mut result = Vec::<String>::new();
    for word in elements.iter() {
        result.push(word.to_string());
    }
    result
}

#[test]
fn merge_with_two_wellformed_arrays() {
    let v1 = build_test_vector(&["as", "bs"]);
    let v2 = build_test_vector(&["cs", "ds"]);

    let res = merge(&v1, &v2);

    assert_contains(&res, &["as", "bs", "cs", "ds"]);
    assert_eq!(res.len(), 4);
}

#[test]
fn merge_with_empty_array() {
    let v1 = build_test_vector(&["as", "bs"]);
    let v2 = build_test_vector(&[]);

    let res = merge(&v1, &v2);
    assert_contains(&res, &["as", "bs"]);
    assert_eq!(res.len(), 2);
}

#[test]
fn merge_with_duplicates() {
    let v1 = build_test_vector(&["as", "bs"]);
    let v2 = build_test_vector(&["as"]);

    let res = merge(&v1, &v2);
    assert_contains(&res, &["as", "bs"]);
    assert_eq!(res.len(), 2);
}

#[test]
fn merge_keeps_first_appearance_order() {
    let v1 = build_test_vector(&["b", "a", "b"]);
    let v2 = build_test_vector(&["c", "a", "d", "c"]);
    let res = merge(&v1, &v2);
    assert_eq!(res, build_test_vector(&["b", "a", "c", "d"]));
}

#[test]
fn merge_of_two_empty_lists() {
    let res = merge(&Vec::new(), &Vec::new());
    assert!(res.is_empty());
}
