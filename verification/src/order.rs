//! Lexicographic order on lines and a sort for the managed region.

use vstd::prelude::*;
use vstd::string::*;
use vstd::relations::{sorted_by, total_ordering, reflexive, antisymmetric, transitive,
    strongly_connected};
use vstd::seq_lib::lemma_sorted_unique;

verus! {

broadcast use vstd::seq_lib::group_to_multiset_ensures, vstd::multiset::group_multiset_axioms;

/// Lexicographic order on lines, by character code, shorter prefixes
/// first.  This is the order in which `str` and `String` compare.
pub open spec fn lex_leq(a: Seq<char>, b: Seq<char>) -> bool
    decreases a.len(),
{
    if a.len() == 0 {
        true
    } else if b.len() == 0 {
        false
    } else if (a[0] as u32) < (b[0] as u32) {
        true
    } else if (a[0] as u32) > (b[0] as u32) {
        false
    } else {
        lex_leq(a.drop_first(), b.drop_first())
    }
}

/// [`lex_leq`] as a relation value, for `sorted_by` and `sort_by`.
pub open spec fn lex_leq_fn() -> spec_fn(Seq<char>, Seq<char>) -> bool {
    |a: Seq<char>, b: Seq<char>| lex_leq(a, b)
}

/// Two characters are equal exactly when their character codes are.
proof fn lemma_char_code(x: char, y: char)
    ensures
        x == y <==> x as u32 == y as u32,
{
}

pub proof fn lemma_lex_leq_refl(a: Seq<char>)
    ensures
        lex_leq(a, a),
    decreases a.len(),
{
    if a.len() > 0 {
        lemma_lex_leq_refl(a.drop_first());
    }
}

pub proof fn lemma_lex_leq_total(a: Seq<char>, b: Seq<char>)
    ensures
        lex_leq(a, b) || lex_leq(b, a),
    decreases a.len(),
{
    if a.len() > 0 && b.len() > 0 {
        lemma_char_code(a[0], b[0]);
        if a[0] == b[0] {
            lemma_lex_leq_total(a.drop_first(), b.drop_first());
        }
    }
}

pub proof fn lemma_lex_leq_antisymmetric(a: Seq<char>, b: Seq<char>)
    requires
        lex_leq(a, b),
        lex_leq(b, a),
    ensures
        a == b,
    decreases a.len(),
{
    if a.len() == 0 {
        assert(b.len() == 0);
        assert(a =~= b);
    } else {
        assert(b.len() > 0);
        lemma_char_code(a[0], b[0]);
        assert(a[0] == b[0]);
        lemma_lex_leq_antisymmetric(a.drop_first(), b.drop_first());
        assert(a.len() == b.len());
        assert forall|i: int| 0 <= i < a.len() implies a[i] == b[i] by {
            if i > 0 {
                assert(a[i] == a.drop_first()[i - 1]);
                assert(b[i] == b.drop_first()[i - 1]);
            }
        }
        assert(a =~= b);
    }
}

pub proof fn lemma_lex_leq_transitive(a: Seq<char>, b: Seq<char>, c: Seq<char>)
    requires
        lex_leq(a, b),
        lex_leq(b, c),
    ensures
        lex_leq(a, c),
    decreases a.len(),
{
    if a.len() > 0 {
        assert(b.len() > 0);
        assert(c.len() > 0);
        let au = a[0] as u32;
        let bu = b[0] as u32;
        let cu = c[0] as u32;
        assert(au <= bu);
        assert(bu <= cu);
        if au == bu && bu == cu {
            assert(lex_leq(a.drop_first(), b.drop_first()));
            assert(lex_leq(b.drop_first(), c.drop_first()));
            lemma_lex_leq_transitive(a.drop_first(), b.drop_first(), c.drop_first());
            assert(lex_leq(a, c));
        } else {
            assert(au < cu);
            assert(lex_leq(a, c));
        }
    }
}

/// [`lex_leq`] is a total ordering of lines.
pub proof fn lemma_lex_total_ordering()
    ensures
        total_ordering(lex_leq_fn()),
{
    let r = lex_leq_fn();
    assert(reflexive(r)) by {
        assert forall|x: Seq<char>| #[trigger] r(x, x) by {
            lemma_lex_leq_refl(x);
        }
    }
    assert(antisymmetric(r)) by {
        assert forall|x: Seq<char>, y: Seq<char>| #[trigger] r(x, y) && #[trigger] r(y, x)
            implies x == y by {
            lemma_lex_leq_antisymmetric(x, y);
        }
    }
    assert(transitive(r)) by {
        assert forall|x: Seq<char>, y: Seq<char>, z: Seq<char>|
            #[trigger] r(x, y) && #[trigger] r(y, z) implies r(x, z) by {
            lemma_lex_leq_transitive(x, y, z);
        }
    }
    assert(strongly_connected(r)) by {
        assert forall|x: Seq<char>, y: Seq<char>| #[trigger] r(x, y) || #[trigger] r(y, x) by {
            lemma_lex_leq_total(x, y);
        }
    }
}

/// Decides [`lex_leq`] on executable strings.
pub fn lex_leq_exec(a: &str, b: &str) -> (r: bool)
    ensures
        r == lex_leq(a@, b@),
{
    let al = a.unicode_len();
    let bl = b.unicode_len();
    let min: usize = if al < bl { al } else { bl };
    let mut i: usize = 0;
    proof {
        assert(a@.skip(0) =~= a@);
        assert(b@.skip(0) =~= b@);
    }
    while i < min
        invariant
            0 <= i <= min,
            al == a@.len(),
            bl == b@.len(),
            min == if al < bl { al } else { bl },
            lex_leq(a@, b@) == lex_leq(a@.skip(i as int), b@.skip(i as int)),
        decreases min - i,
    {
        let ca = a.get_char(i);
        let cb = b.get_char(i);
        proof {
            assert(a@.skip(i as int)[0] == a@[i as int]);
            assert(b@.skip(i as int)[0] == b@[i as int]);
        }
        if (ca as u32) < (cb as u32) {
            return true;
        }
        if (ca as u32) > (cb as u32) {
            return false;
        }
        proof {
            assert(a@.skip(i as int).drop_first() =~= a@.skip(i + 1));
            assert(b@.skip(i as int).drop_first() =~= b@.skip(i + 1));
        }
        i += 1;
    }
    proof {
        if al <= bl {
            assert(a@.skip(i as int).len() == 0);
        } else {
            assert(b@.skip(i as int).len() == 0);
            assert(a@.skip(i as int).len() > 0);
        }
    }
    al <= bl
}

/// Position at which `x` is inserted into the sorted `out`: after every
/// line that is `lex_leq` it, before the first that is not.
fn find_insert_pos(out: &Vec<String>, x: &str) -> (j: usize)
    ensures
        j <= out.len(),
        forall|k: int| 0 <= k < j ==> lex_leq(#[trigger] out.deep_view()[k], x@),
        j < out.len() ==> !lex_leq(out.deep_view()[j as int], x@),
{
    let n = out.len();
    let mut j: usize = 0;
    while j < n
        invariant
            0 <= j <= n,
            n == out.len(),
            forall|k: int| 0 <= k < j ==> lex_leq(#[trigger] out.deep_view()[k], x@),
        decreases n - j,
    {
        if !lex_leq_exec(out[j].as_str(), x) {
            return j;
        }
        j += 1;
    }
    j
}

/// Inserts `x` into the sorted vector `out`, keeping it sorted.
pub fn insert_sorted(out: &mut Vec<String>, x: String)
    requires
        sorted_by(old(out).deep_view(), lex_leq_fn()),
    ensures
        sorted_by(final(out).deep_view(), lex_leq_fn()),
        final(out).deep_view().to_multiset() == old(out).deep_view().to_multiset().insert(x@),
{
    let ghost pre = out.deep_view();
    let j = find_insert_pos(out, x.as_str());
    let ghost xv = x@;
    out.insert(j, x);
    proof {
        let post = out.deep_view();
        assert(post =~= pre.insert(j as int, xv)) by {
            assert(forall|i: int| 0 <= i < post.len() ==> post[i] == out@[i]@);
        }
        // sortedness of the result
        assert forall|p: int, q: int| 0 <= p < q < post.len()
            implies #[trigger] lex_leq_fn()(post[p], post[q]) by {
            let jp = j as int;
            if q < jp {
                assert(lex_leq_fn()(pre[p], pre[q]));
            } else if p < jp && q == jp {
                assert(post[q] == xv);
                assert(lex_leq(pre[p], xv));
            } else if p == jp {
                assert(post[p] == xv);
                assert(jp < pre.len());
                assert(!lex_leq(pre[jp], xv));
                lemma_lex_leq_total(pre[jp], xv);
                assert(lex_leq(xv, pre[jp]));
                assert(post[q] == pre[q - 1]);
                if q - 1 > jp {
                    assert(lex_leq_fn()(pre[jp], pre[q - 1]));
                    lemma_lex_leq_transitive(xv, pre[jp], pre[q - 1]);
                }
            } else if p < jp && q > jp {
                assert(post[p] == pre[p]);
                assert(post[q] == pre[q - 1]);
                assert(lex_leq_fn()(pre[p], pre[q - 1]));
            } else {
                assert(post[p] == pre[p - 1]);
                assert(post[q] == pre[q - 1]);
                assert(lex_leq_fn()(pre[p - 1], pre[q - 1]));
            }
        }
        // multiset of the result
        assert(post.remove(j as int) =~= pre);
        assert(post.remove(j as int).to_multiset() =~= post.to_multiset().remove(post[j as int]));
        assert(post.to_multiset().contains(xv));
        assert(post.to_multiset() =~= pre.to_multiset().insert(xv));
    }
}

/// Sorts the lines into ascending [`lex_leq`] order.
pub fn sort_lines(v: Vec<String>) -> (r: Vec<String>)
    ensures
        r.deep_view() == v.deep_view().sort_by(lex_leq_fn()),
{
    let mut out: Vec<String> = Vec::new();
    let mut i: usize = 0;
    proof {
        assert(out.deep_view() =~= Seq::<Seq<char>>::empty());
        assert(v.deep_view().take(0) =~= Seq::<Seq<char>>::empty());
    }
    while i < v.len()
        invariant
            0 <= i <= v.len(),
            sorted_by(out.deep_view(), lex_leq_fn()),
            out.deep_view().to_multiset() == v.deep_view().take(i as int).to_multiset(),
        decreases v.len() - i,
    {
        let x = v[i].clone();
        proof {
            assert(x@ == v.deep_view()[i as int]);
            assert(v.deep_view().take(i + 1) =~= v.deep_view().take(i as int).push(
                v.deep_view()[i as int]));
        }
        insert_sorted(&mut out, x);
        i += 1;
    }
    proof {
        assert(v.deep_view().take(v.len() as int) =~= v.deep_view());
        lemma_lex_total_ordering();
        v.deep_view().lemma_sort_by_ensures(lex_leq_fn());
        lemma_sorted_unique(out.deep_view(), v.deep_view().sort_by(lex_leq_fn()), lex_leq_fn());
    }
    out
}

} // verus!

