use grass_verified::logger::deprecation_warning;

#[test]
fn deprecation_warning_text() {
    assert_eq!(
        deprecation_warning("slash-div", "Using / for division is deprecated."),
        "DEPRECATION WARNING [slash-div]: Using / for division is deprecated."
    );
    assert_eq!(deprecation_warning("", ""), "DEPRECATION WARNING []: ");
}
