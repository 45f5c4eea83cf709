use hematite_xtask::templates::{build_script, entry_source, staticlib_block};

#[test]
fn staticlib_block_text() {
    assert_eq!(staticlib_block(), "\n[lib]\ncrate-type = [\"staticlib\"]\n\n");
}

#[test]
fn build_script_substitutes_the_qualified_name() {
    let out = build_script("hematite_foo");
    assert!(out.starts_with("//Generated build.rs, modify as needed\n"));
    assert!(out.contains("uri: \"org.prismlauncher.hematite.hematite_foo\","));
    assert!(out.contains(".file(\"src/lib.rs\")"));
    assert!(out.ends_with(".build();\n}\n"));
}

#[test]
fn build_script_differs_only_at_the_substitution_point() {
    let a = build_script("hematite_foo");
    let b = build_script("hematite_bar");
    assert_ne!(a, b);
    let a2 = a.replace(
        "org.prismlauncher.hematite.hematite_foo",
        "org.prismlauncher.hematite.hematite_bar",
    );
    assert_eq!(a2, b);
}

#[test]
fn entry_source_is_the_fixed_skeleton() {
    let out = entry_source();
    assert!(out.starts_with("/// The bridge definition for our QObject\n#[cxx_qt::bridge]\n"));
    assert!(out.contains("pub struct MyObjectRust {\n}"));
    assert!(out.contains("type QString = cxx_qt_lib::QString;"));
    assert!(out.ends_with("impl qobject::MyObject {\n}\n\n"));
    assert_eq!(out, entry_source());
}
