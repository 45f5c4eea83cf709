//! Properties of the patch routine, stated and proved against the
//! model: the managed region keeps each statement once and in order,
//! stray lines are evicted, the unmanaged segments survive unchanged,
//! and on a well-formed manifest the final state does not depend on
//! the order in which two registrations are applied.

use vstd::prelude::*;
use vstd::relations::sorted_by;
use vstd::seq_lib::lemma_sorted_unique;
use crate::lines::{all_clean, cat_lines_nl, clean_line, join_block, join_tail, no_nl,
    lemma_cat_append, lemma_split_cat, lemma_split_rest_lines_no_nl, lemma_split_tail,
    spec_split_lines};
use crate::markers::{is_begin_line, is_end_line, is_reg_line, lemma_reg_line_not_marker};
use crate::order::{lex_leq_fn, lemma_lex_total_ordering};
use crate::patch::{spec_managed_block, spec_patch, spec_patched_stmts};
use crate::scan::{all_reg, empty_partition, lemma_scan_after_grows, lemma_scan_after_run,
    lemma_scan_append, lemma_scan_before_run, lemma_scan_elements, lemma_scan_keeps_before,
    lemma_scan_lines_wf, no_begin_in, scan_from, scan_lines, scan_step, scan_wf, ScanPartition,
    ScanState};

verus! {

broadcast use vstd::seq_lib::group_to_multiset_ensures, vstd::multiset::group_multiset_axioms;

/// After a patch the statement lines of the managed region are
/// pairwise distinct and hold `stmt` exactly once.  This holds of
/// every input, so a second application with the same statement text
/// cannot introduce a second copy.
pub proof fn lemma_patched_stmts_once(content: Seq<char>, stmt: Seq<char>)
    ensures
        ({
            let p = scan_lines(spec_split_lines(content));
            let m = spec_patched_stmts(p.stmts, stmt);
            m.no_duplicates() && m.to_multiset().count(stmt) == 1
        }),
{
    let ls = spec_split_lines(content);
    lemma_scan_lines_wf(ls);
    let p = scan_lines(ls);
    lemma_patched_once_from(p.stmts, stmt);
}

/// Core of [`lemma_patched_stmts_once`], over any distinct statement list.
pub proof fn lemma_patched_once_from(stmts: Seq<Seq<char>>, stmt: Seq<char>)
    requires
        stmts.no_duplicates(),
    ensures
        spec_patched_stmts(stmts, stmt).no_duplicates(),
        spec_patched_stmts(stmts, stmt).to_multiset().count(stmt) == 1,
        spec_patched_stmts(stmts, stmt).to_multiset() == if stmts.contains(stmt) {
            stmts.to_multiset()
        } else {
            stmts.to_multiset().insert(stmt)
        },
        sorted_by(spec_patched_stmts(stmts, stmt), lex_leq_fn()),
{
    let with_new = if stmts.contains(stmt) {
        stmts
    } else {
        stmts.push(stmt)
    };
    stmts.lemma_multiset_has_no_duplicates();
    if stmts.contains(stmt) {
        assert(with_new.to_multiset().count(stmt) == 1);
    } else {
        assert(stmts.to_multiset().count(stmt) == 0);
        assert(with_new.to_multiset() =~= stmts.to_multiset().insert(stmt));
        assert(with_new.no_duplicates()) by {
            assert(forall|i: int| 0 <= i < stmts.len() ==> with_new[i] == stmts[i]);
            assert(with_new.last() == stmt);
            assert(forall|i: int| 0 <= i < stmts.len() ==> stmts[i] != stmt);
        }
    }
    with_new.lemma_multiset_has_no_duplicates();
    lemma_lex_total_ordering();
    with_new.lemma_sort_by_ensures(lex_leq_fn());
    let m = spec_patched_stmts(stmts, stmt);
    assert(m.to_multiset() == with_new.to_multiset());
    m.lemma_multiset_has_no_duplicates_conv();
}

/// Patching twice in succession with the same statement text leaves
/// the managed region holding that exact line exactly once.
pub proof fn lemma_patch_twice_statement_once(content: Seq<char>, stmt: Seq<char>)
    ensures
        ({
            let p = scan_lines(spec_split_lines(spec_patch(content, stmt)));
            spec_patched_stmts(p.stmts, stmt).to_multiset().count(stmt) == 1
        }),
{
    lemma_patched_stmts_once(spec_patch(content, stmt), stmt);
}

/// The statement lines of the managed region leave every patch in
/// ascending lexicographic order.
pub proof fn lemma_patched_stmts_sorted(stmts: Seq<Seq<char>>, stmt: Seq<char>)
    ensures
        sorted_by(spec_patched_stmts(stmts, stmt), lex_leq_fn()),
{
    let with_new = if stmts.contains(stmt) {
        stmts
    } else {
        stmts.push(stmt)
    };
    lemma_lex_total_ordering();
    with_new.lemma_sort_by_ensures(lex_leq_fn());
}

/// A line inside the managed region that matches neither the end
/// marker nor the registration pattern is evicted: after a patch it is
/// absent from the managed statements and present among the lines
/// written after the region.
pub proof fn lemma_stray_line_evicted(ls: Seq<Seq<char>>, i: int, stmt: Seq<char>)
    requires
        0 <= i < ls.len(),
        scan_from(ScanState::InBefore, empty_partition(), ls.take(i)).0 == ScanState::InManaged,
        !is_end_line(ls[i]),
        !is_reg_line(ls[i]),
        is_reg_line(stmt),
    ensures
        scan_lines(ls).after.contains(ls[i]),
        !spec_patched_stmts(scan_lines(ls).stmts, stmt).contains(ls[i]),
{
    let pre = ls.take(i);
    let mid = seq![ls[i]] + ls.skip(i + 1);
    assert(ls =~= pre + mid);
    lemma_scan_append(ScanState::InBefore, empty_partition(), pre, mid);
    let sp = scan_from(ScanState::InBefore, empty_partition(), pre);
    let st = scan_step(ScanState::InManaged, sp.1, ls[i]);
    assert(mid[0] == ls[i]);
    assert(mid.drop_first() =~= ls.skip(i + 1));
    assert(st.1.after == sp.1.after.push(ls[i]));
    assert(scan_from(ScanState::InManaged, sp.1, mid) == scan_from(st.0, st.1,
        ls.skip(i + 1)));
    lemma_scan_after_grows(st.0, st.1, ls.skip(i + 1));
    let fin = scan_lines(ls).after;
    assert(st.1.after[st.1.after.len() - 1] == ls[i]);
    assert(fin[st.1.after.len() - 1] == ls[i]);
    assert(fin.contains(ls[i]));
    // absence from the patched statements
    lemma_scan_lines_wf(ls);
    let stmts = scan_lines(ls).stmts;
    let with_new = if stmts.contains(stmt) {
        stmts
    } else {
        stmts.push(stmt)
    };
    assert(!with_new.contains(ls[i])) by {
        assert(forall|k: int| 0 <= k < stmts.len() ==> is_reg_line(#[trigger] stmts[k]));
        if with_new.contains(ls[i]) {
            let k = choose|k: int| 0 <= k < with_new.len() && with_new[k] == ls[i];
            if k < stmts.len() {
                assert(is_reg_line(stmts[k]));
            } else {
                assert(with_new[k] == stmt);
            }
        }
    }
    lemma_lex_total_ordering();
    with_new.lemma_sort_by_ensures(lex_leq_fn());
}

/// Every line up to and including the begin marker is carried into the
/// rewritten manifest unchanged and in place.
pub proof fn lemma_before_segment_preserved(ls: Seq<Seq<char>>, k: int)
    requires
        0 <= k < ls.len(),
        is_begin_line(ls[k]),
        no_begin_in(ls, k),
    ensures
        scan_lines(ls).before == ls.take(k + 1),
{
    let pre = ls.take(k + 1);
    assert(ls =~= pre + ls.skip(k + 1));
    lemma_scan_append(ScanState::InBefore, empty_partition(), pre, ls.skip(k + 1));
    assert(pre.last() == ls[k]);
    assert(no_begin_in(pre, pre.len() - 1)) by {
        assert(forall|j: int| 0 <= j < k ==> pre[j] == ls[j]);
    }
    lemma_scan_before_run(empty_partition(), pre);
    let sp = scan_from(ScanState::InBefore, empty_partition(), pre);
    assert(sp.1.before =~= pre);
    lemma_scan_keeps_before(sp.0, sp.1, ls.skip(k + 1));
}

/// Every line strictly after the end marker is carried into the
/// rewritten manifest, in order, as its final lines.
pub proof fn lemma_tail_segment_preserved(ls: Seq<Seq<char>>, j: int)
    requires
        0 <= j <= ls.len(),
        scan_from(ScanState::InBefore, empty_partition(), ls.take(j)).0 == ScanState::InAfter,
    ensures
        scan_lines(ls).after == scan_from(ScanState::InBefore, empty_partition(),
            ls.take(j)).1.after + ls.skip(j),
        ls.skip(j).is_suffix_of(scan_lines(ls).after),
{
    let pre = ls.take(j);
    assert(ls =~= pre + ls.skip(j));
    lemma_scan_append(ScanState::InBefore, empty_partition(), pre, ls.skip(j));
    let sp = scan_from(ScanState::InBefore, empty_partition(), pre);
    lemma_scan_after_run(sp.1, ls.skip(j));
    let fin = scan_lines(ls).after;
    assert(fin == sp.1.after + ls.skip(j));
    assert(ls.skip(j) =~= fin.subrange(fin.len() - ls.skip(j).len(), fin.len() as int));
}

/// A well-formed manifest: scanning its lines passes both markers.
pub open spec fn well_formed_lines(ls: Seq<Seq<char>>) -> bool {
    scan_from(ScanState::InBefore, empty_partition(), ls).0 == ScanState::InAfter
}

/// A manifest whose rewriting splits back into the same lines: no
/// line keeps a trailing carriage return, and the text does not end
/// in an empty final line after the managed region.
pub open spec fn renderable(content: Seq<char>) -> bool {
    let ls = spec_split_lines(content);
    let p = scan_lines(ls);
    &&& (forall|i: int| 0 <= i < ls.len() ==> ((#[trigger] ls[i]).len() > 0
        ==> ls[i].last() != '\r'))
    &&& (p.after.len() > 0 ==> p.after.last().len() > 0)
}

/// Scanning the rewritten manifest finds the same partition back, with
/// the patched statements as its managed region.
pub proof fn lemma_rescan(content: Seq<char>, s: Seq<char>)
    requires
        is_reg_line(s),
        no_nl(s),
        well_formed_lines(spec_split_lines(content)),
        renderable(content),
    ensures
        ({
            let p = scan_lines(spec_split_lines(content));
            let p2 = scan_lines(spec_split_lines(spec_patch(content, s)));
            &&& p2.before == p.before
            &&& p2.stmts == spec_patched_stmts(p.stmts, s)
            &&& p2.end_line == p.end_line
            &&& p2.after == p.after
        }),
{
    let ls = spec_split_lines(content);
    lemma_scan_lines_wf(ls);
    lemma_scan_elements(ScanState::InBefore, empty_partition(), ls);
    assert(all_clean(ls)) by {
        lemma_split_rest_lines_no_nl(Seq::<char>::empty(), content);
    }
    let p = scan_lines(ls);
    let fin_mode = scan_from(ScanState::InBefore, empty_partition(), ls).0;
    assert(fin_mode == ScanState::InAfter);
    let e = p.end_line->Some_0;
    assert(p.end_line == Some(e));
    assert(is_end_line(e));
    let m = spec_patched_stmts(p.stmts, s);
    lemma_patched_once_from(p.stmts, s);
    let with_new = if p.stmts.contains(s) {
        p.stmts
    } else {
        p.stmts.push(s)
    };
    lemma_lex_total_ordering();
    with_new.lemma_sort_by_ensures(lex_leq_fn());
    // every statement of m is a clean registration line
    assert(clean_line(s)) by {
        lemma_reg_line_not_marker(s);
        assert(s.last() == ')');
    }
    assert(forall|i: int| 0 <= i < with_new.len()
        ==> is_reg_line(#[trigger] with_new[i]) && clean_line(with_new[i])) by {
        assert(forall|i: int| 0 <= i < p.stmts.len() ==> with_new[i] == p.stmts[i]);
        assert forall|i: int| 0 <= i < p.stmts.len() implies clean_line(p.stmts[i]) by {
            assert(p.stmts.contains(p.stmts[i]));
            assert(ls.contains(p.stmts[i]));
            let k = choose|k: int| 0 <= k < ls.len() && ls[k] == p.stmts[i];
            assert(clean_line(ls[k]));
        }
    }
    assert(all_reg(m) && all_clean(m)) by {
        assert forall|i: int| 0 <= i < m.len()
            implies is_reg_line(#[trigger] m[i]) && clean_line(m[i]) by {
            assert(m.contains(m[i]));
            assert(m.to_multiset().count(m[i]) > 0);
            assert(with_new.to_multiset().count(m[i]) > 0);
            assert(with_new.contains(m[i]));
            let k = choose|k: int| 0 <= k < with_new.len() && with_new[k] == m[i];
        }
    }
    assert(m.len() > 0) by {
        assert(m.to_multiset().count(s) == 1);
        assert(m.to_multiset().contains(s));
        assert(m.contains(s));
    }
    // the segments of the rewritten text
    let bs = p.before;
    assert(all_clean(bs)) by {
        assert forall|i: int| 0 <= i < bs.len() implies clean_line(#[trigger] bs[i]) by {
            assert(bs.contains(bs[i]));
            assert(ls.contains(bs[i]));
            let k = choose|k: int| 0 <= k < ls.len() && ls[k] == bs[i];
        }
    }
    assert(clean_line(e)) by {
        assert(ls.contains(e));
        let k = choose|k: int| 0 <= k < ls.len() && ls[k] == e;
    }
    assert(all_clean(p.after)) by {
        assert forall|i: int| 0 <= i < p.after.len()
            implies clean_line(#[trigger] p.after[i]) by {
            assert(p.after.contains(p.after[i]));
            assert(ls.contains(p.after[i]));
            let k = choose|k: int| 0 <= k < ls.len() && ls[k] == p.after[i];
        }
    }
    let mb = spec_managed_block(p, s);
    assert(mb == m.push(e));
    let out = spec_patch(content, s);
    // the rewritten text splits back into the same lines
    let both = bs + mb;
    assert(join_block(bs) == cat_lines_nl(bs));
    assert(join_block(mb) == cat_lines_nl(mb));
    lemma_cat_append(bs, mb);
    assert(out =~= cat_lines_nl(both) + join_tail(p.after));
    assert(all_clean(both)) by {
        assert(forall|i: int| 0 <= i < bs.len() ==> both[i] == bs[i]);
        assert(forall|i: int| 0 <= i < m.len() ==> both[bs.len() + i] == m[i]);
        assert(both[both.len() - 1] == e);
        assert forall|i: int| 0 <= i < both.len() implies clean_line(#[trigger] both[i]) by {
            if i < bs.len() {
            } else if i < both.len() - 1 {
                assert(both[i] == mb[i - bs.len()]);
                assert(mb[i - bs.len()] == m[i - bs.len()]);
            }
        }
    }
    lemma_split_cat(both, join_tail(p.after));
    lemma_split_tail(p.after);
    let ls2 = spec_split_lines(out);
    assert(ls2 =~= both + p.after);
    // scan the rewritten lines
    let rest2 = mb + p.after;
    assert(ls2 =~= bs + rest2) by {
        assert(both + p.after =~= bs + (mb + p.after));
    }
    lemma_scan_append(ScanState::InBefore, empty_partition(), bs, rest2);
    lemma_scan_before_run(empty_partition(), bs);
    let p_b = scan_from(ScanState::InBefore, empty_partition(), bs).1;
    assert(p_b.before =~= bs);
    assert(p_b.stmts =~= Seq::<Seq<char>>::empty());
    assert(p_b.after =~= Seq::<Seq<char>>::empty());
    let tail2 = seq![e] + p.after;
    assert(rest2 =~= m + tail2) by {
        assert(mb + p.after =~= m + (seq![e] + p.after));
    }
    lemma_scan_append(ScanState::InManaged, p_b, m, tail2);
    assert(forall|i: int| 0 <= i < m.len() ==> !p_b.stmts.contains(#[trigger] m[i]));
    crate::scan::lemma_scan_reg_run(p_b, m);
    let p_m = scan_from(ScanState::InManaged, p_b, m).1;
    assert(p_m.stmts =~= m);
    // the end-marker line moves the scan past the region
    assert(tail2[0] == e);
    assert(tail2.drop_first() =~= p.after);
    let st_e = scan_step(ScanState::InManaged, p_m, e);
    assert(st_e.0 == ScanState::InAfter);
    assert(st_e.1.end_line == Some(e));
    assert(scan_from(ScanState::InManaged, p_m, tail2) == scan_from(st_e.0, st_e.1,
        p.after));
    lemma_scan_after_run(st_e.1, p.after);
    let p2 = scan_lines(ls2);
    assert(p2.before =~= bs);
    assert(p2.stmts =~= m);
    assert(p2.end_line == Some(e));
    assert(p2.after =~= Seq::<Seq<char>>::empty() + p.after);
    assert(Seq::<Seq<char>>::empty() + p.after =~= p.after);
}

/// On a well-formed manifest, patching twice with the same statement
/// text rewrites the file to exactly the same text as patching once.
pub proof fn lemma_patch_idempotent(content: Seq<char>, s: Seq<char>)
    requires
        is_reg_line(s),
        no_nl(s),
        well_formed_lines(spec_split_lines(content)),
        renderable(content),
    ensures
        spec_patch(spec_patch(content, s), s) == spec_patch(content, s),
{
    let ls = spec_split_lines(content);
    lemma_scan_lines_wf(ls);
    let p = scan_lines(ls);
    lemma_rescan(content, s);
    let p2 = scan_lines(spec_split_lines(spec_patch(content, s)));
    let m1 = spec_patched_stmts(p.stmts, s);
    lemma_patched_once_from(p.stmts, s);
    assert(m1.contains(s)) by {
        broadcast use vstd::seq_lib::group_to_multiset_ensures;

        assert(m1.to_multiset().count(s) == 1);
    }
    let m2 = spec_patched_stmts(m1, s);
    assert(m2 == m1.sort_by(lex_leq_fn()));
    lemma_lex_total_ordering();
    m1.lemma_sort_by_ensures(lex_leq_fn());
    lemma_sorted_unique(m1.sort_by(lex_leq_fn()), m1, lex_leq_fn());
    assert(m2 == m1);
    assert(spec_patch(spec_patch(content, s), s) =~= spec_patch(content, s)) by {
        assert(spec_managed_block(p2, s) == spec_managed_block(p, s));
    }
}

/// On a well-formed manifest, registering two statements reaches the
/// same rewritten text whichever registration is applied first.
pub proof fn lemma_patch_order_independent(content: Seq<char>, s1: Seq<char>, s2: Seq<char>)
    requires
        is_reg_line(s1),
        no_nl(s1),
        is_reg_line(s2),
        no_nl(s2),
        well_formed_lines(spec_split_lines(content)),
        renderable(content),
    ensures
        spec_patch(spec_patch(content, s1), s2) == spec_patch(spec_patch(content, s2), s1),
{
    let ls = spec_split_lines(content);
    lemma_scan_lines_wf(ls);
    let p = scan_lines(ls);
    lemma_rescan(content, s1);
    lemma_rescan(content, s2);
    let pa = scan_lines(spec_split_lines(spec_patch(content, s1)));
    let pb = scan_lines(spec_split_lines(spec_patch(content, s2)));
    let m1 = spec_patched_stmts(p.stmts, s1);
    let m2 = spec_patched_stmts(p.stmts, s2);
    lemma_patched_once_from(p.stmts, s1);
    lemma_patched_once_from(p.stmts, s2);
    lemma_patched_once_from(m1, s2);
    lemma_patched_once_from(m2, s1);
    let fa = spec_patched_stmts(m1, s2);
    let fb = spec_patched_stmts(m2, s1);
    // same multiset of statements either way
    assert(fa.to_multiset() == fb.to_multiset()) by {
        let base = p.stmts.to_multiset();
        assert(m1.contains(s2) <==> (p.stmts.contains(s2) || s1 == s2)) by {
            lemma_contains_via_multiset(m1, p.stmts, s1, s2);
        }
        assert(m2.contains(s1) <==> (p.stmts.contains(s1) || s1 == s2)) by {
            lemma_contains_via_multiset(m2, p.stmts, s2, s1);
        }
        assert(fa.to_multiset() =~= fb.to_multiset());
    }
    lemma_lex_total_ordering();
    lemma_sorted_unique(fa, fb, lex_leq_fn());
    assert(fa == fb);
    assert(spec_patch(spec_patch(content, s1), s2) =~= spec_patch(spec_patch(content, s2),
        s1)) by {
        assert(spec_managed_block(pa, s2) == spec_managed_block(pb, s1));
    }
}

/// Membership of `y` in the statements patched with `x`, read off the
/// multiset equations.
proof fn lemma_contains_via_multiset(m: Seq<Seq<char>>, base: Seq<Seq<char>>, x: Seq<char>,
    y: Seq<char>)
    requires
        base.no_duplicates(),
        m == spec_patched_stmts(base, x),
    ensures
        m.contains(y) <==> (base.contains(y) || x == y),
{
    broadcast use vstd::seq_lib::group_to_multiset_ensures;

    lemma_patched_once_from(base, x);
    if base.contains(x) {
        assert(m.to_multiset() == base.to_multiset());
        assert(m.contains(y) <==> m.to_multiset().count(y) > 0);
        assert(base.contains(y) <==> base.to_multiset().count(y) > 0);
        if x == y {
            assert(base.contains(y));
        }
    } else {
        assert(m.to_multiset() == base.to_multiset().insert(x));
        assert(m.contains(y) <==> m.to_multiset().count(y) > 0);
        assert(base.contains(y) <==> base.to_multiset().count(y) > 0);
    }
}

} // verus!
