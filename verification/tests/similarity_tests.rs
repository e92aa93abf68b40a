use product_extractor::similarity::{is_related, levenshtein_distance, to_lowercase};

#[test]
fn equal_token_matches_its_keyword() {
    assert!(is_related("price", &["price"]));
    assert!(is_related("product", &["price", "product", "item", "name"]));
}

#[test]
fn one_substitution_matches() {
    // "prize" differs from "price" in one character; tolerance is 1
    assert!(is_related("prize", &["price"]));
}

#[test]
fn two_substitutions_exceed_a_tolerance_of_one() {
    // "brize" differs from "price" in two characters; tolerance is 1
    assert!(!is_related("brize", &["price"]));
}

#[test]
fn empty_attribute_is_never_related() {
    assert!(!is_related("", &["price", "product", "item", "name"]));
    assert!(!is_related("", &["anything"]));
}

#[test]
fn digits_are_separators() {
    assert!(is_related("product-1", &["product"]));
    assert!(is_related("price2tag", &["price"]));
}

#[test]
fn short_tokens_are_dropped() {
    // every fragment has at most one character, so nothing survives
    assert!(!is_related("p-r_i.c,e", &["price"]));
}

#[test]
fn matching_is_case_insensitive() {
    assert!(is_related("PRICE", &["price"]));
    assert!(is_related("Product_Name", &["name"]));
    assert!(is_related("price", &["PRICE"]));
}

#[test]
fn longer_keywords_allow_more_drift() {
    // "product" has tolerance floor(7 / 3) = 2
    assert!(is_related("produkts", &["product"]));
}

#[test]
fn unrelated_words_are_rejected() {
    assert!(!is_related("footer navigation", &["price", "product", "item", "name"]));
}

#[test]
fn levenshtein_distance_classic_cases() {
    assert_eq!(levenshtein_distance("kitten", "sitting"), 3);
    assert_eq!(levenshtein_distance("", "abc"), 3);
    assert_eq!(levenshtein_distance("abc", ""), 3);
    assert_eq!(levenshtein_distance("abc", "abc"), 0);
    assert_eq!(levenshtein_distance("flaw", "lawn"), 2);
}

#[test]
fn to_lowercase_maps_every_word() {
    let words = vec!["AbC".to_string(), "PRICE".to_string(), "done".to_string()];
    let lowered = to_lowercase(&words);
    assert_eq!(lowered, vec!["abc".to_string(), "price".to_string(), "done".to_string()]);
}

#[test]
fn edit_distance_admits_shifts_not_only_substitutions() {
    // "bcauvw" differs from "abcuvw" in three positions, yet a deletion and
    // an insertion transform one into the other in two edits, within the
    // keyword's tolerance of two
    assert_eq!(levenshtein_distance("bcauvw", "abcuvw"), 2);
    assert!(is_related("bcauvw", &["abcuvw"]));
}
