use lib_utils::vec_utils::{
    vec_longest_str, vec_longest_str_len, vec_random_choice, vec_string_to_str,
};

#[test]
fn random_choice_of_empty_vector_is_none() {
    let v: Vec<i32> = Vec::new();
    assert!(vec_random_choice(&v).is_none());
}

#[test]
fn random_choice_of_singleton_is_that_element() {
    let v = vec!["only".to_string()];
    let (element, index) = vec_random_choice(&v).unwrap();
    assert_eq!(index, 0);
    assert_eq!(element.as_str(), "only");
}

#[test]
fn random_choice_returns_element_at_its_index() {
    let v = vec![10, 20, 30, 40];
    for _ in 0..32 {
        let (element, index) = vec_random_choice(&v).unwrap();
        assert!(index < v.len());
        assert_eq!(*element, v[index]);
    }
}

#[test]
fn string_vector_to_slices() {
    let v = vec!["a".to_string(), "b".to_string(), "c".to_string()];
    assert_eq!(vec_string_to_str(&v), vec!["a", "b", "c"]);
}

#[test]
fn string_vector_to_slices_empty() {
    let v: Vec<String> = Vec::new();
    assert!(vec_string_to_str(&v).is_empty());
}

#[test]
fn longest_string_is_found() {
    let v = vec![
        "a".to_string(),
        "bb".to_string(),
        "ccc".to_string(),
        "dd".to_string(),
    ];
    assert_eq!(vec_longest_str(&v).unwrap().as_str(), "ccc");
}

#[test]
fn longest_string_tie_takes_the_last() {
    let v = vec!["aa".to_string(), "bb".to_string(), "c".to_string()];
    assert_eq!(vec_longest_str(&v).unwrap().as_str(), "bb");
}

#[test]
fn longest_string_of_empty_vector_is_none() {
    let v: Vec<String> = Vec::new();
    assert!(vec_longest_str(&v).is_none());
}

#[test]
fn longest_length_scenario() {
    let v = vec![
        "a".to_string(),
        "bb".to_string(),
        "ccc".to_string(),
        "dd".to_string(),
    ];
    assert_eq!(vec_longest_str_len(&v), 3);
}

#[test]
fn longest_length_of_empty_vector_is_zero() {
    let v: Vec<String> = Vec::new();
    assert_eq!(vec_longest_str_len(&v), 0);
}

#[test]
fn lengths_are_counted_in_bytes() {
    // a two-byte character outweighs a one-byte one
    let v = vec!["é".to_string(), "a".to_string()];
    assert_eq!(vec_longest_str_len(&v), 2);
    assert_eq!(vec_longest_str(&v).unwrap().as_str(), "é");
}
