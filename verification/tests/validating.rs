use cook_book::validating::is_valid_ingredient_name;
use cook_book::validating::is_valid_password;
use cook_book::validating::is_valid_recipe_name;
use cook_book::validating::is_valid_username;

#[test]
fn password_accepts_all_rules_met() {
    assert!(is_valid_password("Abcdef!x"));
    assert!(is_valid_password("xY#aaaa"));
    // exactly 50 bytes
    let long = format!("Aa!{}", "x".repeat(47));
    assert_eq!(long.len(), 50);
    assert!(is_valid_password(&long));
}

#[test]
fn password_rejects_bad_lengths() {
    assert!(!is_valid_password("Aa!xxx")); // 6 bytes: too short
    let too_long = format!("Aa!{}", "x".repeat(48)); // 51 bytes
    assert_eq!(too_long.len(), 51);
    assert!(!is_valid_password(&too_long));
}

#[test]
fn password_rejects_missing_classes() {
    assert!(!is_valid_password("abcdef!x")); // no upper case
    assert!(!is_valid_password("ABCDEF!X")); // no lower case
    assert!(!is_valid_password("Abcdefgh")); // no special character
    assert!(!is_valid_password("Abc def!")); // whitespace
    assert!(!is_valid_password("Abcdef!\u{a0}")); // unicode whitespace
}

#[test]
fn username_needs_length_and_letter() {
    assert!(is_valid_username("bob"));
    assert!(is_valid_username("a23"));
    assert!(!is_valid_username("ab")); // too short
    assert!(!is_valid_username("123")); // no letter
    assert!(!is_valid_username(&"x".repeat(26))); // too long
    assert!(is_valid_username(&"x".repeat(25)));
}

#[test]
fn ingredient_name_needs_length_and_letter() {
    assert!(is_valid_ingredient_name("salt"));
    assert!(!is_valid_ingredient_name("so")); // too short
    assert!(!is_valid_ingredient_name("999")); // no letter
    assert!(is_valid_ingredient_name(&"y".repeat(255)));
    assert!(!is_valid_ingredient_name(&"y".repeat(256)));
}

#[test]
fn recipe_name_allows_only_alphanumeric_and_whitespace() {
    assert!(is_valid_recipe_name("Chicken Soup 2"));
    assert!(is_valid_recipe_name("")); // no character breaks the rule
    assert!(is_valid_recipe_name("crème brûlée"));
    assert!(!is_valid_recipe_name("pasta!"));
    assert!(!is_valid_recipe_name("a/b"));
    assert!(!is_valid_recipe_name("under_score"));
}
