use std::cmp::Ordering;

use indexer::CaseInsensitiveString;

#[test]
fn it_works_str() {
    let a = CaseInsensitiveString::from_str("this");
    let b = CaseInsensitiveString::from_str("This");
    assert_eq!(a, b);
    assert!(a <= b);
}

#[test]
fn it_works_string() {
    let a = CaseInsensitiveString::new("this".to_owned());
    let b = CaseInsensitiveString::new("THIS".to_owned());
    assert_eq!(a, b);
    assert!(a <= b);
}

#[test]
fn it_works_str_string() {
    let a = CaseInsensitiveString::new("this".to_owned());
    let b = CaseInsensitiveString::from_str("THIS");
    assert_eq!(a, b);
    assert!(a <= b);
}

#[test]
fn differs() {
    let a = CaseInsensitiveString::from_str("this1");
    let b = CaseInsensitiveString::from_str("this");
    assert_ne!(a, b);
    assert!(a > b);
}

#[test]
fn folding_upper_and_lower_give_the_same_key() {
    let s = "MiXeD_Case 42!";
    let a = CaseInsensitiveString::from_str(s);
    let up = CaseInsensitiveString::from_str(&s.to_ascii_uppercase());
    let low = CaseInsensitiveString::from_str(&s.to_ascii_lowercase());
    assert_eq!(a, up);
    assert_eq!(a, low);
    assert_eq!(up.partial_cmp(&low), Some(Ordering::Equal));
}

#[test]
fn non_ascii_is_not_folded() {
    let a = CaseInsensitiveString::from_str("é");
    let b = CaseInsensitiveString::from_str("É");
    assert_ne!(a, b);
    assert_eq!(a.hash_input(), vec!['é']);
}

#[test]
fn equal_keys_hash_the_same_input() {
    let a = CaseInsensitiveString::from_str("Hello");
    let b = CaseInsensitiveString::from_str("hELLO");
    assert_eq!(a, b);
    assert_eq!(a.hash_input(), b.hash_input());
    assert_eq!(a.hash_input(), vec!['h', 'e', 'l', 'l', 'o']);
}

#[test]
fn order_is_by_uppercased_characters() {
    let a = CaseInsensitiveString::from_str("apple");
    let b = CaseInsensitiveString::from_str("Banana");
    assert!(a < b);
    assert!(b > a);
    assert_eq!(a.partial_cmp(&b), Some(Ordering::Less));
    assert_eq!(b.partial_cmp(&a), Some(Ordering::Greater));
    // '_' lies between the upper- and lower-case letters
    let u = CaseInsensitiveString::from_str("a_");
    let l = CaseInsensitiveString::from_str("ab");
    assert!(u > l);
}

#[test]
fn into_owned_and_text_keep_the_case() {
    let a = CaseInsensitiveString::from_str("KeepMe").into_owned();
    assert_eq!(a.to_text(), "KeepMe");
    assert_eq!(a.as_chars().len(), 6);
}

#[test]
fn empty_keys_are_equal() {
    let a = CaseInsensitiveString::from_str("");
    let b = CaseInsensitiveString::new(String::new());
    assert_eq!(a, b);
    assert_eq!(a.partial_cmp(&b), Some(Ordering::Equal));
}
