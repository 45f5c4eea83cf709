use hematite_xtask::names::registration_statement;
use hematite_xtask::plan::{scaffold_plan, Step};
use hematite_xtask::templates::{build_script, entry_source, staticlib_block};

#[test]
fn plan_has_the_eight_steps_in_order() {
    let steps = scaffold_plan("foo");
    assert_eq!(steps.len(), 8);

    match &steps[0] {
        Step::RunCommand { program, args, dir } => {
            assert_eq!(program, "cargo");
            assert_eq!(args, &["new", "--name", "hematite_foo", "--lib", "foo"]);
            assert!(dir.is_empty());
        },
        _ => panic!("step 0 is not a command"),
    }
    match &steps[1] {
        Step::AppendFile { path, text } => {
            assert_eq!(path, &["foo", "Cargo.toml"]);
            assert_eq!(text, &staticlib_block());
        },
        _ => panic!("step 1 is not an append"),
    }
    match &steps[2] {
        Step::RunCommand { program, args, dir } => {
            assert_eq!(program, "cargo");
            assert_eq!(args, &["add", "cxx", "cxx-qt", "cxx-qt-lib"]);
            assert_eq!(dir, &["foo"]);
        },
        _ => panic!("step 2 is not a command"),
    }
    match &steps[3] {
        Step::RunCommand { program, args, dir } => {
            assert_eq!(program, "cargo");
            assert_eq!(args, &["add", "--build", "cxx-qt-build"]);
            assert_eq!(dir, &["foo"]);
        },
        _ => panic!("step 3 is not a command"),
    }
    match &steps[4] {
        Step::WriteFile { path, text } => {
            assert_eq!(path, &["foo", "build.rs"]);
            assert_eq!(text, &build_script("hematite_foo"));
        },
        _ => panic!("step 4 is not a write"),
    }
    match &steps[5] {
        Step::CreateDirAll { path } => {
            assert_eq!(path, &["foo", "src"]);
        },
        _ => panic!("step 5 is not a directory creation"),
    }
    match &steps[6] {
        Step::WriteFile { path, text } => {
            assert_eq!(path, &["foo", "src", "lib.rs"]);
            assert_eq!(text, &entry_source());
        },
        _ => panic!("step 6 is not a write"),
    }
    match &steps[7] {
        Step::PatchManifest { path, statement } => {
            assert_eq!(path, &["CMakeLists.txt"]);
            assert_eq!(statement, &registration_statement("foo"));
        },
        _ => panic!("step 7 is not the manifest patch"),
    }
}
