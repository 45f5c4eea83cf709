//! The fixed file templates the scaffolder writes: the static-library
//! block appended to the new crate's manifest, the generated build
//! script, and the generated entry-point source file.

use vstd::prelude::*;
use vstd::string::*;

verus! {

/// The block appended to the new crate's manifest so that it builds a
/// static archive.
pub open spec fn spec_staticlib_block() -> Seq<char> {
    "\n[lib]\ncrate-type = [\"staticlib\"]\n\n"@
}

/// Builds the static-library manifest block.
pub fn staticlib_block() -> (r: String)
    ensures
        r@ == spec_staticlib_block(),
{
    let mut r = String::new();
    r.append("\n[lib]\ncrate-type = [\"staticlib\"]\n\n");
    proof {
        assert(r@ =~= spec_staticlib_block());
    }
    r
}

/// Opening of the generated build script, up to the namespace-URI
/// comment that carries the qualified crate name.
pub open spec fn spec_build_script_head() -> Seq<char> {
    "//Generated build.rs, modify as needed\n\nuse cxx_qt_build::{CxxQtBuilder, QmlModule};\n\nfn main() {\n    CxxQtBuilder::new()\n        // Link Qt's Network library\n        // - Qt Core is always linked\n        // - Qt Gui is linked by enabling the qt_gui Cargo feature (default).\n        // - Qt Qml is linked by enabling the qt_qml Cargo feature (default).\n        // - Qt Qml requires linking Qt Network on macOS\n        // - use .qt_module(\"Network\") qt link a Qt library e.g. Link Qt's Network library\n        // .qml_module(QmlModule {\n        //     uri: \"org.prismlauncher.hematite."@
}

/// Remainder of the generated build script after the namespace-URI
/// comment.
pub open spec fn spec_build_script_tail() -> Seq<char> {
    "\",\n        //     rust_files: &[\"src/cxxqt_object.rs\"],\n        //     qml_files: &[\"../qml/main.qml\"],\n        //     ..Default::default()\n        // })\n        .file(\"src/lib.rs\")\n        .cc_builder(|cc| {\n            cc.include(\"../../\")\n        })\n        .build();\n}\n"@
}

/// The generated build script: the fixed template with the qualified
/// crate name substituted into its namespace-URI comment.
pub open spec fn spec_build_script(qualified: Seq<char>) -> Seq<char> {
    spec_build_script_head() + qualified + spec_build_script_tail()
}

/// Builds the generated build script for the qualified crate name.
pub fn build_script(qualified: &str) -> (r: String)
    ensures
        r@ == spec_build_script(qualified@),
{
    let mut r = String::new();
    r.append("//Generated build.rs, modify as needed\n\nuse cxx_qt_build::{CxxQtBuilder, QmlModule};\n\nfn main() {\n    CxxQtBuilder::new()\n        // Link Qt's Network library\n        // - Qt Core is always linked\n        // - Qt Gui is linked by enabling the qt_gui Cargo feature (default).\n        // - Qt Qml is linked by enabling the qt_qml Cargo feature (default).\n        // - Qt Qml requires linking Qt Network on macOS\n        // - use .qt_module(\"Network\") qt link a Qt library e.g. Link Qt's Network library\n        // .qml_module(QmlModule {\n        //     uri: \"org.prismlauncher.hematite.");
    r.append(qualified);
    r.append("\",\n        //     rust_files: &[\"src/cxxqt_object.rs\"],\n        //     qml_files: &[\"../qml/main.qml\"],\n        //     ..Default::default()\n        // })\n        .file(\"src/lib.rs\")\n        .cc_builder(|cc| {\n            cc.include(\"../../\")\n        })\n        .build();\n}\n");
    proof {
        assert(r@ =~= spec_build_script(qualified@));
    }
    r
}

/// The generated entry-point source file: a minimal binding-object
/// skeleton, emitted verbatim.
pub open spec fn spec_entry_source() -> Seq<char> {
    "/// The bridge definition for our QObject\n#[cxx_qt::bridge]\npub mod qobject {\n\n    unsafe extern \"C++\" {\n        include!(\"cxx-qt-lib/qstring.h\");\n        /// An alias to the QString type\n        type QString = cxx_qt_lib::QString;\n    }\n\n    unsafe extern \"RustQt\" {\n        // The QObject definition\n        // We tell CXX-Qt that we want a QObject class with the name MyObject\n        // based on the Rust struct MyObjectRust.\n        #[qobject]\n        type MyObject = super::MyObjectRust;\n    }\n\n    unsafe extern \"RustQt\" {\n        // Declare the invocable methods we want to expose on the QObject\n    }\n}\n\nuse core::pin::Pin;\nuse cxx_qt_lib::QString;\n\n/// The Rust struct for the QObject\n#[derive(Default)]\npub struct MyObjectRust {\n}\n\nimpl qobject::MyObject {\n}\n\n"@
}

/// Builds the generated entry-point source file.
pub fn entry_source() -> (r: String)
    ensures
        r@ == spec_entry_source(),
{
    let mut r = String::new();
    r.append("/// The bridge definition for our QObject\n#[cxx_qt::bridge]\npub mod qobject {\n\n    unsafe extern \"C++\" {\n        include!(\"cxx-qt-lib/qstring.h\");\n        /// An alias to the QString type\n        type QString = cxx_qt_lib::QString;\n    }\n\n    unsafe extern \"RustQt\" {\n        // The QObject definition\n        // We tell CXX-Qt that we want a QObject class with the name MyObject\n        // based on the Rust struct MyObjectRust.\n        #[qobject]\n        type MyObject = super::MyObjectRust;\n    }\n\n    unsafe extern \"RustQt\" {\n        // Declare the invocable methods we want to expose on the QObject\n    }\n}\n\nuse core::pin::Pin;\nuse cxx_qt_lib::QString;\n\n/// The Rust struct for the QObject\n#[derive(Default)]\npub struct MyObjectRust {\n}\n\nimpl qobject::MyObject {\n}\n\n");
    proof {
        assert(r@ =~= spec_entry_source());
    }
    r
}

} // verus!
