//! Deriving the qualified crate name and the registration statement
//! from a short crate name.

use vstd::prelude::*;
use vstd::string::*;
use crate::markers::{is_reg_line, reg_prefix};

verus! {

/// Fixed namespace prefix carried by every generated crate name.
pub open spec fn name_prefix() -> Seq<char> {
    "hematite_"@
}

/// The qualified name: the fixed prefix followed by the short name.
pub open spec fn spec_qualified_name(short: Seq<char>) -> Seq<char> {
    name_prefix() + short
}

/// The registration statement line for a short name:
/// `LinkCxxQtCrate(<short> <qualified>)`.
pub open spec fn spec_registration_statement(short: Seq<char>) -> Seq<char> {
    reg_prefix() + short + " "@ + spec_qualified_name(short) + ")"@
}

/// Derives the qualified crate name from the short name.
pub fn qualified_name(short: &str) -> (r: String)
    ensures
        r@ == spec_qualified_name(short@),
{
    let mut r = String::new();
    r.append("hematite_");
    r.append(short);
    proof {
        assert(r@ =~= spec_qualified_name(short@));
    }
    r
}

/// Builds the registration statement line for the short name.
pub fn registration_statement(short: &str) -> (r: String)
    ensures
        r@ == spec_registration_statement(short@),
{
    let mut r = String::new();
    r.append("LinkCxxQtCrate(");
    r.append(short);
    r.append(" ");
    let q = qualified_name(short);
    r.append(q.as_str());
    r.append(")");
    proof {
        assert(r@ =~= spec_registration_statement(short@));
    }
    r
}

/// The derived qualified name is the fixed prefix concatenated with the
/// short name, and the mapping is injective: distinct short names give
/// distinct qualified names.
pub proof fn lemma_qualified_name_injective(a: Seq<char>, b: Seq<char>)
    requires
        spec_qualified_name(a) == spec_qualified_name(b),
    ensures
        a == b,
{
    let p = name_prefix().len() as int;
    assert(a =~= spec_qualified_name(a).subrange(p, spec_qualified_name(a).len() as int));
    assert(b =~= spec_qualified_name(b).subrange(p, spec_qualified_name(b).len() as int));
}

/// Every registration statement built from a short name matches the
/// registration-statement pattern of the managed region.
pub proof fn lemma_registration_statement_is_reg(short: Seq<char>)
    ensures
        is_reg_line(spec_registration_statement(short)),
{
    reveal_strlit(")");
    let s = spec_registration_statement(short);
    assert(reg_prefix().is_prefix_of(s)) by {
        assert(reg_prefix() =~= s.subrange(0, reg_prefix().len() as int));
    }
    assert(s.last() == ')');
}

} // verus!
