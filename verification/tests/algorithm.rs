use spelchek::spellchecker::algorithm::{edit_distance, is_word_correct, search_for_word};

fn create_dict() -> Vec<String> {
    ["apple", "apples", "banana", "blue", "cucumber", "yellow"]
        .iter()
        .map(|s| s.to_string())
        .collect()
}

#[test]
fn test_finding_existing_word() {
    let dict = create_dict();
    assert_eq!(search_for_word("apple", &dict), Some(0));
    assert_eq!(search_for_word("blue", &dict), Some(3));
}

#[test]
fn test_finding_nonexistant_word() {
    let dict = create_dict();
    assert_eq!(search_for_word("applee", &dict), None);
    assert_eq!(search_for_word("red", &dict), None);
}

#[test]
fn test_checking_correct_word() {
    let dict = create_dict();
    assert!(is_word_correct("apple", &dict));
    assert!(is_word_correct("apples", &dict));
    assert!(is_word_correct("banana", &dict));
    assert!(is_word_correct("blue", &dict));
    assert!(is_word_correct("cucumber", &dict));
    assert!(is_word_correct("yellow", &dict));
}

#[test]
fn test_checking_incorrect_word() {
    let dict = create_dict();
    assert!(!is_word_correct("kiwi", &dict));
    assert!(!is_word_correct("oranges", &dict));
    assert!(!is_word_correct("dragon", &dict));
    assert!(!is_word_correct("blah", &dict));
    assert!(!is_word_correct("clue", &dict));
    assert!(!is_word_correct("dheubh", &dict));
}

#[test]
fn test_checking_not_word() {
    let dict = create_dict();
    assert!(!is_word_correct("some phrase", &dict));
    assert_eq!(search_for_word("some phrase", &dict), None);
}

#[test]
fn test_case_sensitivity() {
    let dict = create_dict();
    assert!(is_word_correct("BaNAna", &dict));
    assert!(is_word_correct("APPLE", &dict));
    assert!(is_word_correct("yellow", &dict));
}

#[test]
fn test_distance_empty_source() {
    assert_eq!(edit_distance("", "elevator"), 8);
}

#[test]
fn test_distance_empty_target() {
    assert_eq!(edit_distance("elevator", ""), 8);
}

#[test]
fn test_distance_only_insert() {
    assert_eq!(edit_distance("elev", "elevator"), 4);
    assert_eq!(edit_distance("a", "abcdef"), 5);
    assert_eq!(edit_distance("a", "aaaaaaaaaaaaaaaaaaaaa"), 20);
}

#[test]
fn test_0_distance() {
    assert_eq!(edit_distance("abc", "abc"), 0);
    assert_eq!(edit_distance("", ""), 0);
    assert_eq!(edit_distance("abcabcabc", "abcabcabc"), 0);
    assert_eq!(edit_distance("abcabcabcabcabcabcabcabcabcabcabcabcabcabcabcabcabcabcabcabcabcabcabcabcabcabcabcabcabcabcabcabcabcabcabcabcabcabcabcabcabcabcabcabcabcabcabcabcabcabcabcabcabcabcabcabcabcabcabcabcabcabcabcabcabcabcabcabcabcabcabcabcabcabcabcabcabcabcabcabcabcabcabcabcabcabcabcabcabcabcabcabcabcabcabcabcabcabcabcabcabc", "abcabcabcabcabcabcabcabcabcabcabcabcabcabcabcabcabcabcabcabcabcabcabcabcabcabcabcabcabcabcabcabcabcabcabcabcabcabcabcabcabcabcabcabcabcabcabcabcabcabcabcabcabcabcabcabcabcabcabcabcabcabcabcabcabcabcabcabcabcabcabcabcabcabcabcabcabcabcabcabcabcabcabcabcabcabcabcabcabcabcabcabcabcabcabcabcabcabcabcabcabc"), 0);
}

#[test]
fn test_distance_only_sub() {
    assert_eq!(edit_distance("abc", "def"), 3);
    assert_eq!(edit_distance("kitten", "kityen"), 1);
    assert_eq!(edit_distance("milosz", "mayoss"), 3);
}

#[test]
fn test_edit_distance() {
    assert_eq!(edit_distance("kitten", "smitten"), 2);
    assert_eq!(edit_distance("ths", "this"), 1);
    assert_eq!(edit_distance("bat", "bed"), 2);
    assert_eq!(edit_distance("hello", "kelm"), 3);
    assert_eq!(edit_distance("sittmg", "setting"), 3);
}

#[test]
fn test_edit_distance_symmetric() {
    assert_eq!(edit_distance("kitten", "smitten"), edit_distance("smitten", "kitten"));
    assert_eq!(edit_distance("ths", "this"), edit_distance("this", "ths"));
    assert_eq!(edit_distance("", "abc"), edit_distance("abc", ""));
}
