//! Rendering errors for the user: the message for a failed command
//! and the top-to-bottom chain of causes.

use vstd::prelude::*;
use vstd::string::*;

verus! {

/// The message carried by a failed command invocation.
pub open spec fn spec_command_error_message(cmd: Seq<char>) -> Seq<char> {
    "failed to run command `"@ + cmd + "`"@
}

/// Builds the message for a failed command invocation.
pub fn command_error_message(cmd: &str) -> (r: String)
    ensures
        r@ == spec_command_error_message(cmd@),
{
    let mut r = String::new();
    r.append("failed to run command `");
    r.append(cmd);
    r.append("`");
    proof {
        assert(r@ =~= spec_command_error_message(cmd@));
    }
    r
}

/// Each cause on its own line, introduced by `Caused by: `.
pub open spec fn spec_cause_chain(causes: Seq<Seq<char>>) -> Seq<char>
    decreases causes.len(),
{
    if causes.len() == 0 {
        Seq::empty()
    } else {
        "\nCaused by: "@ + causes[0] + spec_cause_chain(causes.drop_first())
    }
}

/// The rendered error: the top message, then every cause beneath it.
pub open spec fn spec_error_report(msg: Seq<char>, causes: Seq<Seq<char>>) -> Seq<char> {
    "Error: "@ + msg + spec_cause_chain(causes)
}

/// Renders the error message and its chain of causes, top to bottom.
pub fn error_report(msg: &str, causes: &Vec<String>) -> (r: String)
    ensures
        r@ == spec_error_report(msg@, causes.deep_view()),
{
    let ghost dv = causes.deep_view();
    let mut r = String::new();
    r.append("Error: ");
    r.append(msg);
    proof {
        assert(dv.skip(0) =~= dv);
        assert(r@ + spec_cause_chain(dv.skip(0)) =~= spec_error_report(msg@, dv));
    }
    let n = causes.len();
    let mut i: usize = 0;
    while i < n
        invariant
            0 <= i <= n,
            n == causes.len(),
            dv == causes.deep_view(),
            r@ + spec_cause_chain(dv.skip(i as int)) == spec_error_report(msg@, dv),
        decreases n - i,
    {
        r.append("\nCaused by: ");
        r.append(causes[i].as_str());
        proof {
            let rest = dv.skip(i as int);
            assert(rest[0] == dv[i as int]);
            assert(rest.drop_first() =~= dv.skip(i + 1));
            assert(spec_cause_chain(rest) == "\nCaused by: "@ + rest[0] + spec_cause_chain(
                dv.skip(i + 1)));
            assert(causes@[i as int]@ == dv[i as int]);
            assert(r@ + spec_cause_chain(dv.skip(i + 1)) =~= spec_error_report(msg@, dv));
        }
        i += 1;
    }
    proof {
        assert(spec_cause_chain(dv.skip(n as int)) =~= Seq::<char>::empty());
        assert(r@ =~= r@ + spec_cause_chain(dv.skip(n as int)));
    }
    r
}

} // verus!
