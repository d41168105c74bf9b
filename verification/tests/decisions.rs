use mtmigrate::session::{
    confirm_delete, confirm_migration, consent_update, mapping_choice, str_eq, MapChoice,
    SearchConsent,
};

#[test]
fn string_equality() {
    assert!(str_eq("abc", "abc"));
    assert!(str_eq("", ""));
    assert!(!str_eq("abc", "abd"));
    assert!(!str_eq("abc", "ab"));
}

#[test]
fn mapping_loop_choices() {
    assert_eq!(mapping_choice(""), MapChoice::Continue);
    assert_eq!(mapping_choice("c"), MapChoice::Continue);
    assert_eq!(mapping_choice("s"), MapChoice::BySize);
    assert_eq!(mapping_choice("f"), MapChoice::ByFilename);
    assert_eq!(mapping_choice("m"), MapChoice::Manual);
    assert_eq!(mapping_choice("x"), MapChoice::Unrecognized);
    assert_eq!(mapping_choice("cc"), MapChoice::Unrecognized);
}

#[test]
fn migration_prompt_defaults_yes() {
    assert!(confirm_migration(""));
    assert!(confirm_migration("y"));
    assert!(confirm_migration("yes"));
    assert!(!confirm_migration("n"));
    assert!(!confirm_migration("no"));
}

#[test]
fn delete_prompt_defaults_no() {
    assert!(!confirm_delete(""));
    assert!(confirm_delete("y"));
    assert!(confirm_delete("yes"));
    assert!(!confirm_delete("n"));
}

#[test]
fn consent_is_one_shot() {
    let agreed = consent_update(SearchConsent::Unasked, "y");
    assert_eq!(agreed, SearchConsent::Agreed);
    let rejected = consent_update(SearchConsent::Unasked, "n");
    assert_eq!(rejected, SearchConsent::Rejected);
    // an answered question never changes again
    assert_eq!(consent_update(SearchConsent::Agreed, "n"), SearchConsent::Agreed);
    assert_eq!(consent_update(SearchConsent::Rejected, "y"), SearchConsent::Rejected);
}
