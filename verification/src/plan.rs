//! The scaffolding plan: the exact sequence of commands to run and
//! files to write when a new sub-crate is added.  The caller performs
//! each step in order against the workspace root and stops at the
//! first failure.

use vstd::prelude::*;
use vstd::string::*;
use crate::names::{qualified_name, registration_statement, spec_qualified_name,
    spec_registration_statement};
use crate::templates::{build_script, entry_source, spec_build_script, spec_entry_source,
    spec_staticlib_block, staticlib_block};

verus! {

/// One scaffolding step, interpreted by the caller.  Paths are given
/// as components relative to the workspace root; an empty path is the
/// root itself.
pub enum Step {
    /// Run `program` with `args` in the directory `dir`.
    RunCommand { program: String, args: Vec<String>, dir: Vec<String> },
    /// Open the file at `path` for appending and append `text`.
    AppendFile { path: Vec<String>, text: String },
    /// Create or truncate the file at `path` and write `text`.
    WriteFile { path: Vec<String>, text: String },
    /// Create the directory at `path` if it is absent.
    CreateDirAll { path: Vec<String> },
    /// Patch the build manifest at `path` with the registration `statement`.
    PatchManifest { path: Vec<String>, statement: String },
}

/// The plan for a short crate name: create the library crate under the
/// qualified name, declare it a static archive, add the three runtime
/// binding libraries and the build-time dependency, write the build
/// script and the entry-point source, and register the crate in the
/// workspace build manifest.
pub open spec fn plan_matches(steps: Seq<Step>, name: Seq<char>) -> bool {
    &&& steps.len() == 8
    &&& (steps[0] matches Step::RunCommand { program, args, dir } && program@ == "cargo"@
        && args.deep_view() == seq!["new"@, "--name"@, spec_qualified_name(name), "--lib"@,
        name] && dir.deep_view() == Seq::<Seq<char>>::empty())
    &&& (steps[1] matches Step::AppendFile { path, text } && path.deep_view() == seq![name,
        "Cargo.toml"@] && text@ == spec_staticlib_block())
    &&& (steps[2] matches Step::RunCommand { program, args, dir } && program@ == "cargo"@
        && args.deep_view() == seq!["add"@, "cxx"@, "cxx-qt"@, "cxx-qt-lib"@]
        && dir.deep_view() == seq![name])
    &&& (steps[3] matches Step::RunCommand { program, args, dir } && program@ == "cargo"@
        && args.deep_view() == seq!["add"@, "--build"@, "cxx-qt-build"@]
        && dir.deep_view() == seq![name])
    &&& (steps[4] matches Step::WriteFile { path, text } && path.deep_view() == seq![name,
        "build.rs"@] && text@ == spec_build_script(spec_qualified_name(name)))
    &&& (steps[5] matches Step::CreateDirAll { path } && path.deep_view() == seq![name,
        "src"@])
    &&& (steps[6] matches Step::WriteFile { path, text } && path.deep_view() == seq![name,
        "src"@, "lib.rs"@] && text@ == spec_entry_source())
    &&& (steps[7] matches Step::PatchManifest { path, statement } && path.deep_view()
        == seq!["CMakeLists.txt"@] && statement@ == spec_registration_statement(name))
}

/// Builds the scaffolding plan for the short crate name.
pub fn scaffold_plan(name: &str) -> (steps: Vec<Step>)
    ensures
        plan_matches(steps@, name@),
{
    let qual = qualified_name(name);
    let mut steps: Vec<Step> = Vec::new();

    let mut args0: Vec<String> = Vec::new();
    args0.push(String::from_str("new"));
    args0.push(String::from_str("--name"));
    args0.push(qual.clone());
    args0.push(String::from_str("--lib"));
    args0.push(String::from_str(name));
    proof {
        assert(args0.deep_view() =~= seq!["new"@, "--name"@, spec_qualified_name(name@),
            "--lib"@, name@]) by {
            assert(forall|k: int| 0 <= k < args0@.len() ==> args0.deep_view()[k]
                == args0@[k]@);
        }
    }
    let dir0: Vec<String> = Vec::new();
    proof {
        assert(dir0.deep_view() =~= Seq::<Seq<char>>::empty());
    }
    steps.push(Step::RunCommand { program: String::from_str("cargo"), args: args0, dir: dir0 });

    let mut path1: Vec<String> = Vec::new();
    path1.push(String::from_str(name));
    path1.push(String::from_str("Cargo.toml"));
    proof {
        assert(path1.deep_view() =~= seq![name@, "Cargo.toml"@]) by {
            assert(forall|k: int| 0 <= k < path1@.len() ==> path1.deep_view()[k]
                == path1@[k]@);
        }
    }
    steps.push(Step::AppendFile { path: path1, text: staticlib_block() });

    let mut args2: Vec<String> = Vec::new();
    args2.push(String::from_str("add"));
    args2.push(String::from_str("cxx"));
    args2.push(String::from_str("cxx-qt"));
    args2.push(String::from_str("cxx-qt-lib"));
    proof {
        assert(args2.deep_view() =~= seq!["add"@, "cxx"@, "cxx-qt"@, "cxx-qt-lib"@]) by {
            assert(forall|k: int| 0 <= k < args2@.len() ==> args2.deep_view()[k]
                == args2@[k]@);
        }
    }
    let dir2 = one_component(name);
    steps.push(Step::RunCommand { program: String::from_str("cargo"), args: args2, dir: dir2 });

    let mut args3: Vec<String> = Vec::new();
    args3.push(String::from_str("add"));
    args3.push(String::from_str("--build"));
    args3.push(String::from_str("cxx-qt-build"));
    proof {
        assert(args3.deep_view() =~= seq!["add"@, "--build"@, "cxx-qt-build"@]) by {
            assert(forall|k: int| 0 <= k < args3@.len() ==> args3.deep_view()[k]
                == args3@[k]@);
        }
    }
    let dir3 = one_component(name);
    steps.push(Step::RunCommand { program: String::from_str("cargo"), args: args3, dir: dir3 });

    let mut path4: Vec<String> = Vec::new();
    path4.push(String::from_str(name));
    path4.push(String::from_str("build.rs"));
    proof {
        assert(path4.deep_view() =~= seq![name@, "build.rs"@]) by {
            assert(forall|k: int| 0 <= k < path4@.len() ==> path4.deep_view()[k]
                == path4@[k]@);
        }
    }
    steps.push(Step::WriteFile { path: path4, text: build_script(qual.as_str()) });

    let mut path5: Vec<String> = Vec::new();
    path5.push(String::from_str(name));
    path5.push(String::from_str("src"));
    proof {
        assert(path5.deep_view() =~= seq![name@, "src"@]) by {
            assert(forall|k: int| 0 <= k < path5@.len() ==> path5.deep_view()[k]
                == path5@[k]@);
        }
    }
    steps.push(Step::CreateDirAll { path: path5 });

    let mut path6: Vec<String> = Vec::new();
    path6.push(String::from_str(name));
    path6.push(String::from_str("src"));
    path6.push(String::from_str("lib.rs"));
    proof {
        assert(path6.deep_view() =~= seq![name@, "src"@, "lib.rs"@]) by {
            assert(forall|k: int| 0 <= k < path6@.len() ==> path6.deep_view()[k]
                == path6@[k]@);
        }
    }
    steps.push(Step::WriteFile { path: path6, text: entry_source() });

    let mut path7: Vec<String> = Vec::new();
    path7.push(String::from_str("CMakeLists.txt"));
    proof {
        assert(path7.deep_view() =~= seq!["CMakeLists.txt"@]) by {
            assert(forall|k: int| 0 <= k < path7@.len() ==> path7.deep_view()[k]
                == path7@[k]@);
        }
    }
    steps.push(Step::PatchManifest { path: path7, statement: registration_statement(name) });

    steps
}

/// A one-component path: the new crate's directory under the root.
fn one_component(name: &str) -> (p: Vec<String>)
    ensures
        p.deep_view() == seq![name@],
{
    let mut p: Vec<String> = Vec::new();
    p.push(String::from_str(name));
    proof {
        assert(p.deep_view() =~= seq![name@]) by {
            assert(forall|k: int| 0 <= k < p@.len() ==> p.deep_view()[k] == p@[k]@);
        }
    }
    p
}

} // verus!
