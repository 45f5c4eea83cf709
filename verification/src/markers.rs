//! The three line patterns that structure the build manifest: the
//! begin marker, the end marker, and registration statements.

use vstd::prelude::*;
use vstd::string::*;

verus! {

/// Text that opens the managed region of the build manifest.
pub open spec fn begin_marker() -> Seq<char> {
    "# BEGIN CRATES_TO_BUILD"@
}

/// Text that closes the managed region of the build manifest.
pub open spec fn end_marker() -> Seq<char> {
    "# END CRATES_TO_BUILD"@
}

/// Opening of a registration statement line.
pub open spec fn reg_prefix() -> Seq<char> {
    "LinkCxxQtCrate("@
}

/// A line that opens the managed region: it starts with the begin marker.
pub open spec fn is_begin_line(l: Seq<char>) -> bool {
    begin_marker().is_prefix_of(l)
}

/// A line that closes the managed region: it starts with the end marker.
pub open spec fn is_end_line(l: Seq<char>) -> bool {
    end_marker().is_prefix_of(l)
}

/// A registration statement line: `LinkCxxQtCrate(` followed by at
/// least one character, the last of which is a closing parenthesis.
pub open spec fn is_reg_line(l: Seq<char>) -> bool {
    &&& reg_prefix().is_prefix_of(l)
    &&& l.len() > reg_prefix().len()
    &&& l.last() == ')'
}

/// A registration line is neither marker: it starts with `L`, the markers with `#`.
pub proof fn lemma_reg_line_not_marker(l: Seq<char>)
    requires
        is_reg_line(l),
    ensures
        !is_begin_line(l),
        !is_end_line(l),
{
    reveal_strlit("LinkCxxQtCrate(");
    reveal_strlit("# BEGIN CRATES_TO_BUILD");
    reveal_strlit("# END CRATES_TO_BUILD");
    assert(l.subrange(0, reg_prefix().len() as int)[0] == l[0]);
    assert(l[0] == 'L');
    if is_begin_line(l) {
        assert(l.subrange(0, begin_marker().len() as int)[0] == l[0]);
    }
    if is_end_line(l) {
        assert(l.subrange(0, end_marker().len() as int)[0] == l[0]);
    }
}

/// Whether `p` is a prefix of `l`, decided character by character.
pub fn str_has_prefix(l: &str, p: &str) -> (r: bool)
    ensures
        r == p@.is_prefix_of(l@),
{
    let pl = p.unicode_len();
    let ll = l.unicode_len();
    if ll < pl {
        return false;
    }
    let mut i: usize = 0;
    while i < pl
        invariant
            0 <= i <= pl,
            pl == p@.len(),
            ll == l@.len(),
            pl <= ll,
            forall|j: int| 0 <= j < i ==> l@[j] == p@[j],
        decreases pl - i,
    {
        if l.get_char(i) != p.get_char(i) {
            proof {
                assert(!(p@ =~= l@.subrange(0, p@.len() as int))) by {
                    assert(l@.subrange(0, p@.len() as int)[i as int] == l@[i as int]);
                }
            }
            return false;
        }
        i += 1;
    }
    proof {
        assert(p@ =~= l@.subrange(0, p@.len() as int));
    }
    true
}

/// Decides [`is_begin_line`] on an executable string.
pub fn line_is_begin(l: &str) -> (r: bool)
    ensures
        r == is_begin_line(l@),
{
    str_has_prefix(l, "# BEGIN CRATES_TO_BUILD")
}

/// Decides [`is_end_line`] on an executable string.
pub fn line_is_end(l: &str) -> (r: bool)
    ensures
        r == is_end_line(l@),
{
    str_has_prefix(l, "# END CRATES_TO_BUILD")
}

/// Decides [`is_reg_line`] on an executable string.
pub fn line_is_reg(l: &str) -> (r: bool)
    ensures
        r == is_reg_line(l@),
{
    let pre = "LinkCxxQtCrate(";
    if !str_has_prefix(l, pre) {
        return false;
    }
    let ll = l.unicode_len();
    let pl = pre.unicode_len();
    if ll <= pl {
        return false;
    }
    let c = l.get_char(ll - 1);
    c == ')'
}

} // verus!
