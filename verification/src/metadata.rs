//! Extracting the workspace root from the package manager's
//! machine-readable metadata output: the quoted value that follows the
//! first `workspace_root":"` marker, read up to the closing `",`.

use vstd::prelude::*;
use vstd::string::*;

verus! {

/// The pattern `pat` occurs in `s` at position `i`.
pub open spec fn matches_at(s: Seq<char>, pat: Seq<char>, i: int) -> bool {
    0 <= i && i + pat.len() <= s.len() && s.subrange(i, i + pat.len()) == pat
}

/// The marker that precedes the workspace root in the metadata output.
pub open spec fn lead_marker() -> Seq<char> {
    "workspace_root\":\""@
}

/// The terminator that follows the quoted workspace root.
pub open spec fn term_marker() -> Seq<char> {
    "\","@
}

/// Whether `pat` occurs in `s` at position `i`, decided character by
/// character.
fn occurs_at(s: &str, pat: &str, i: usize) -> (r: bool)
    requires
        i + pat@.len() <= s@.len(),
    ensures
        r == matches_at(s@, pat@, i as int),
{
    let n = s.unicode_len();
    let pl = pat.unicode_len();
    let mut k: usize = 0;
    while k < pl
        invariant
            0 <= k <= pl,
            pl == pat@.len(),
            n == s@.len(),
            i + pl <= n,
            forall|j: int| 0 <= j < k ==> s@[i + j] == pat@[j],
        decreases pl - k,
    {
        if s.get_char(i + k) != pat.get_char(k) {
            proof {
                assert(s@.subrange(i as int, i + pat@.len())[k as int] == s@[i + k]);
            }
            return false;
        }
        k += 1;
    }
    proof {
        assert(s@.subrange(i as int, i + pat@.len()) =~= pat@);
    }
    true
}

/// The first position at or past `from` where `pat` occurs in `s`.
fn find_first(s: &str, pat: &str, from: usize) -> (r: Option<usize>)
    requires
        pat@.len() > 0,
    ensures
        match r {
            Some(j) => {
                &&& from <= j
                &&& matches_at(s@, pat@, j as int)
                &&& forall|k: int| from <= k < j ==> !matches_at(s@, pat@, k)
            },
            None => forall|k: int| k >= from ==> !matches_at(s@, pat@, k),
        },
{
    let n = s.unicode_len();
    let pl = pat.unicode_len();
    if n < pl || from > n - pl {
        proof {
            assert(forall|k: int| k >= from ==> !matches_at(s@, pat@, k));
        }
        return None;
    }
    let mut i: usize = from;
    while i <= n - pl
        invariant
            from <= i <= n - pl + 1,
            pl <= n,
            n == s@.len(),
            pl == pat@.len(),
            pl > 0,
            forall|k: int| from <= k < i ==> !matches_at(s@, pat@, k),
        decreases n - i,
    {
        if occurs_at(s, pat, i) {
            return Some(i);
        }
        i += 1;
    }
    proof {
        assert(forall|k: int| k >= i ==> !matches_at(s@, pat@, k));
    }
    None
}

/// Reads the workspace root out of the metadata output: the text
/// between the first `workspace_root":"` marker and the first `",`
/// after it.  `None` exactly when the marker is absent, or no
/// terminator follows it.
pub fn extract_workspace_root(out: &str) -> (r: Option<String>)
    ensures
        match r {
            Some(path) => exists|i: int, j: int| {
                &&& #[trigger] matches_at(out@, lead_marker(), i)
                &&& (forall|k: int| 0 <= k < i ==> !matches_at(out@, lead_marker(), k))
                &&& i + lead_marker().len() <= j
                &&& #[trigger] matches_at(out@, term_marker(), j)
                &&& (forall|k: int| i + lead_marker().len() <= k < j ==> !matches_at(out@,
                    term_marker(), k))
                &&& path@ == out@.subrange(i + lead_marker().len(), j)
            },
            None => (forall|k: int| !matches_at(out@, lead_marker(), k)) || (exists|i: int| {
                &&& #[trigger] matches_at(out@, lead_marker(), i)
                &&& (forall|k: int| 0 <= k < i ==> !matches_at(out@, lead_marker(), k))
                &&& (forall|k: int| k >= i + lead_marker().len() ==> !matches_at(out@,
                    term_marker(), k))
            }),
        },
{
    let lead = "workspace_root\":\"";
    let term = "\",";
    proof {
        reveal_strlit("workspace_root\":\"");
        reveal_strlit("\",");
    }
    let n = out.unicode_len();
    let li = match find_first(out, lead, 0) {
        Some(i) => i,
        None => {
            return None;
        },
    };
    proof {
        assert(li + lead@.len() <= n);
    }
    let start = li + lead.unicode_len();
    let tj = match find_first(out, term, start) {
        Some(j) => j,
        None => {
            return None;
        },
    };
    proof {
        assert(tj + term@.len() <= n);
    }
    let path = String::from_str(out.substring_char(start, tj));
    proof {
        let gi = li as int;
        let gj = tj as int;
        assert(matches_at(out@, lead_marker(), gi));
        assert(forall|k: int| 0 <= k < gi ==> !matches_at(out@, lead_marker(), k));
        assert(gi + lead_marker().len() <= gj);
        assert(matches_at(out@, term_marker(), gj));
        assert(forall|k: int| gi + lead_marker().len() <= k < gj ==> !matches_at(out@,
            term_marker(), k));
        assert(path@ == out@.subrange(gi + lead_marker().len(), gj));
    }
    Some(path)
}

} // verus!
