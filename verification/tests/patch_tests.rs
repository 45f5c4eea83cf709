use hematite_xtask::names::registration_statement;
use hematite_xtask::patch::patch_manifest;

fn count_occurrences(haystack: &str, needle: &str) -> usize {
    haystack.lines().filter(|l| *l == needle).count()
}

#[test]
fn patch_empty_managed_region() {
    let input = "# BEGIN CRATES_TO_BUILD\n# END CRATES_TO_BUILD\n";
    let stmt = registration_statement("foo");
    let out = patch_manifest(input, stmt.as_str());
    assert_eq!(
        out,
        "# BEGIN CRATES_TO_BUILD\nLinkCxxQtCrate(foo hematite_foo)\n# END CRATES_TO_BUILD\n"
    );
}

#[test]
fn patch_sorts_existing_statements() {
    let input = "# BEGIN CRATES_TO_BUILD\nLinkCxxQtCrate(b hematite_b)\nLinkCxxQtCrate(a hematite_a)\n# END CRATES_TO_BUILD\n";
    let stmt = registration_statement("c");
    let out = patch_manifest(input, stmt.as_str());
    assert_eq!(
        out,
        "# BEGIN CRATES_TO_BUILD\nLinkCxxQtCrate(a hematite_a)\nLinkCxxQtCrate(b hematite_b)\nLinkCxxQtCrate(c hematite_c)\n# END CRATES_TO_BUILD\n"
    );
}

#[test]
fn patch_twice_keeps_one_copy() {
    let input = "# BEGIN CRATES_TO_BUILD\n# END CRATES_TO_BUILD\n";
    let stmt = registration_statement("foo");
    let once = patch_manifest(input, stmt.as_str());
    let twice = patch_manifest(once.as_str(), stmt.as_str());
    assert_eq!(count_occurrences(twice.as_str(), stmt.as_str()), 1);
    assert_eq!(once, twice);
}

#[test]
fn patch_order_does_not_matter() {
    let input = "top\n# BEGIN CRATES_TO_BUILD\nLinkCxxQtCrate(m hematite_m)\n# END CRATES_TO_BUILD\nbottom\n";
    let s1 = registration_statement("a");
    let s2 = registration_statement("z");
    let first_then_second = patch_manifest(
        patch_manifest(input, s1.as_str()).as_str(),
        s2.as_str(),
    );
    let second_then_first = patch_manifest(
        patch_manifest(input, s2.as_str()).as_str(),
        s1.as_str(),
    );
    assert_eq!(first_then_second, second_then_first);
}

#[test]
fn stray_lines_move_after_the_region() {
    let input = "x\n# BEGIN CRATES_TO_BUILD\nhello world\n# END CRATES_TO_BUILD\ntail";
    let stmt = registration_statement("foo");
    let out = patch_manifest(input, stmt.as_str());
    assert_eq!(
        out,
        "x\n# BEGIN CRATES_TO_BUILD\nLinkCxxQtCrate(foo hematite_foo)\n# END CRATES_TO_BUILD\nhello world\ntail"
    );
}

#[test]
fn surrounding_content_is_preserved() {
    let input = "one\ntwo\n# BEGIN CRATES_TO_BUILD\n# END CRATES_TO_BUILD\nthree\nfour";
    let stmt = registration_statement("foo");
    let out = patch_manifest(input, stmt.as_str());
    assert_eq!(
        out,
        "one\ntwo\n# BEGIN CRATES_TO_BUILD\nLinkCxxQtCrate(foo hematite_foo)\n# END CRATES_TO_BUILD\nthree\nfour"
    );
}

#[test]
fn duplicate_statements_in_input_collapse() {
    let input = "# BEGIN CRATES_TO_BUILD\nLinkCxxQtCrate(a hematite_a)\nLinkCxxQtCrate(a hematite_a)\n# END CRATES_TO_BUILD\n";
    let stmt = registration_statement("b");
    let out = patch_manifest(input, stmt.as_str());
    assert_eq!(
        out,
        "# BEGIN CRATES_TO_BUILD\nLinkCxxQtCrate(a hematite_a)\nLinkCxxQtCrate(b hematite_b)\n# END CRATES_TO_BUILD\n"
    );
}

#[test]
fn patch_without_markers_appends_statement() {
    let input = "abc\n";
    let stmt = registration_statement("foo");
    let out = patch_manifest(input, stmt.as_str());
    assert_eq!(out, "abc\nLinkCxxQtCrate(foo hematite_foo)\n");
}

#[test]
fn patch_empty_input() {
    let stmt = registration_statement("foo");
    let out = patch_manifest("", stmt.as_str());
    assert_eq!(out, "\nLinkCxxQtCrate(foo hematite_foo)\n");
}

#[test]
fn carriage_returns_are_stripped_from_line_ends() {
    let input = "# BEGIN CRATES_TO_BUILD\r\n# END CRATES_TO_BUILD\r\n";
    let stmt = registration_statement("foo");
    let out = patch_manifest(input, stmt.as_str());
    assert_eq!(
        out,
        "# BEGIN CRATES_TO_BUILD\nLinkCxxQtCrate(foo hematite_foo)\n# END CRATES_TO_BUILD\n"
    );
}

#[test]
fn marker_line_with_trailing_text_is_kept_verbatim() {
    let input = "# BEGIN CRATES_TO_BUILD (do not edit)\n# END CRATES_TO_BUILD (do not edit)\n";
    let stmt = registration_statement("foo");
    let out = patch_manifest(input, stmt.as_str());
    assert_eq!(
        out,
        "# BEGIN CRATES_TO_BUILD (do not edit)\nLinkCxxQtCrate(foo hematite_foo)\n# END CRATES_TO_BUILD (do not edit)\n"
    );
}
