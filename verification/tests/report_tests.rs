use hematite_xtask::report::{command_error_message, error_report};

#[test]
fn command_message_names_the_command() {
    assert_eq!(
        command_error_message("cargo metadata"),
        "failed to run command `cargo metadata`"
    );
}

#[test]
fn report_renders_the_cause_chain_top_to_bottom() {
    let causes = vec!["disk on fire".to_string(), "bad sector".to_string()];
    assert_eq!(
        error_report("failed to run command `cargo`", &causes),
        "Error: failed to run command `cargo`\nCaused by: disk on fire\nCaused by: bad sector"
    );
}

#[test]
fn report_without_causes_is_the_message_alone() {
    let causes: Vec<String> = Vec::new();
    assert_eq!(error_report("boom", &causes), "Error: boom");
}
