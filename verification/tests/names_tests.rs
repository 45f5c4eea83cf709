use hematite_xtask::names::{qualified_name, registration_statement};

#[test]
fn qualified_name_prefixes_the_short_name() {
    assert_eq!(qualified_name("foo"), "hematite_foo");
    assert_eq!(qualified_name(""), "hematite_");
    assert_eq!(qualified_name("launcher_core"), "hematite_launcher_core");
}

#[test]
fn qualified_names_of_distinct_short_names_differ() {
    assert_ne!(qualified_name("a"), qualified_name("b"));
    assert_ne!(qualified_name("foo"), qualified_name("foo2"));
}

#[test]
fn registration_statement_carries_both_names() {
    assert_eq!(
        registration_statement("foo"),
        "LinkCxxQtCrate(foo hematite_foo)"
    );
    assert_eq!(
        registration_statement("a"),
        "LinkCxxQtCrate(a hematite_a)"
    );
}
