//! The three-state scan that partitions the manifest's lines into the
//! segment before the managed region, the registration statements, the
//! end-marker line, and everything after.

use vstd::prelude::*;
use vstd::string::*;
use crate::markers::{is_begin_line, is_end_line, is_reg_line, line_is_begin, line_is_end,
    line_is_reg};

verus! {

/// State of the line scan: before the begin marker, inside the managed
/// region, or past the end marker.
#[derive(Clone, Copy, PartialEq, Eq, Structural)]
pub enum ScanState {
    InBefore,
    InManaged,
    InAfter,
}

/// The partitioned manifest: lines up to and including the begin
/// marker, the registration statements found (in order, duplicates
/// dropped), the end-marker line if one was found, and the remaining
/// lines (strays evicted from the managed region, then everything past
/// the end marker).
#[verifier::ext_equal]
pub ghost struct ScanPartition {
    pub before: Seq<Seq<char>>,
    pub stmts: Seq<Seq<char>>,
    pub end_line: Option<Seq<char>>,
    pub after: Seq<Seq<char>>,
}

pub open spec fn empty_partition() -> ScanPartition {
    ScanPartition {
        before: Seq::empty(),
        stmts: Seq::empty(),
        end_line: None,
        after: Seq::empty(),
    }
}

/// One step of the scan on line `l`.
pub open spec fn scan_step(m: ScanState, p: ScanPartition, l: Seq<char>) -> (ScanState,
    ScanPartition) {
    match m {
        ScanState::InBefore => {
            if is_begin_line(l) {
                (ScanState::InManaged, ScanPartition { before: p.before.push(l), ..p })
            } else {
                (ScanState::InBefore, ScanPartition { before: p.before.push(l), ..p })
            }
        },
        ScanState::InManaged => {
            if is_end_line(l) {
                (ScanState::InAfter, ScanPartition { end_line: Some(l), ..p })
            } else if is_reg_line(l) {
                if p.stmts.contains(l) {
                    (ScanState::InManaged, p)
                } else {
                    (ScanState::InManaged, ScanPartition { stmts: p.stmts.push(l), ..p })
                }
            } else {
                (ScanState::InManaged, ScanPartition { after: p.after.push(l), ..p })
            }
        },
        ScanState::InAfter => (ScanState::InAfter, ScanPartition { after: p.after.push(l), ..p }),
    }
}

/// The scan over `ls`, started in state `m` with partition `p`.
pub open spec fn scan_from(m: ScanState, p: ScanPartition, ls: Seq<Seq<char>>) -> (ScanState,
    ScanPartition)
    decreases ls.len(),
{
    if ls.len() == 0 {
        (m, p)
    } else {
        let sp = scan_step(m, p, ls[0]);
        scan_from(sp.0, sp.1, ls.drop_first())
    }
}

/// The partition of a whole manifest's lines.
pub open spec fn scan_lines(ls: Seq<Seq<char>>) -> ScanPartition {
    scan_from(ScanState::InBefore, empty_partition(), ls).1
}

/// The partitioned manifest, executable form.
pub struct Partition {
    pub before: Vec<String>,
    pub stmts: Vec<String>,
    pub end_line: Option<String>,
    pub after: Vec<String>,
}

impl View for Partition {
    type V = ScanPartition;

    open spec fn view(&self) -> ScanPartition {
        ScanPartition {
            before: self.before.deep_view(),
            stmts: self.stmts.deep_view(),
            end_line: self.end_line.deep_view(),
            after: self.after.deep_view(),
        }
    }
}

/// Appends a copy of the line to the vector.
pub fn push_line(v: &mut Vec<String>, l: &String)
    ensures
        final(v).deep_view() == old(v).deep_view().push(l@),
{
    let ghost dv = v.deep_view();
    v.push(l.clone());
    proof {
        assert(v.deep_view() =~= dv.push(l@)) by {
            assert(forall|k: int| 0 <= k < v@.len() ==> v.deep_view()[k] == v@[k]@);
        }
    }
}

/// Whether some line of `v` has exactly the text of `l`.
pub fn contains_line(v: &Vec<String>, l: &String) -> (r: bool)
    ensures
        r == v.deep_view().contains(l@),
{
    let n = v.len();
    let mut i: usize = 0;
    while i < n
        invariant
            0 <= i <= n,
            n == v.len(),
            forall|k: int| 0 <= k < i ==> v.deep_view()[k] != l@,
        decreases n - i,
    {
        if v[i] == *l {
            proof {
                assert(v.deep_view()[i as int] == l@);
            }
            return true;
        }
        i += 1;
    }
    proof {
        assert(!v.deep_view().contains(l@));
    }
    false
}

/// Scans the manifest's lines into a [`Partition`], the three-state
/// forward pass over the input.
pub fn scan(lines: &Vec<String>) -> (p: Partition)
    ensures
        p@ == scan_lines(lines.deep_view()),
{
    let ghost all = lines.deep_view();
    let mut p = Partition {
        before: Vec::new(),
        stmts: Vec::new(),
        end_line: None,
        after: Vec::new(),
    };
    let mut st = ScanState::InBefore;
    proof {
        assert(p@ =~= empty_partition());
        assert(all.skip(0) =~= all);
    }
    let n = lines.len();
    let mut i: usize = 0;
    while i < n
        invariant
            0 <= i <= n,
            n == lines.len(),
            all == lines.deep_view(),
            scan_from(st, p@, all.skip(i as int)) == scan_from(
                ScanState::InBefore, empty_partition(), all),
        decreases n - i,
    {
        let ghost st0 = st;
        let ghost p0 = p@;
        let ghost rest = all.skip(i as int);
        let l = &lines[i];
        proof {
            assert(rest[0] == l@);
            assert(rest.drop_first() =~= all.skip(i + 1));
        }
        match st {
            ScanState::InBefore => {
                let b = line_is_begin(l.as_str());
                push_line(&mut p.before, l);
                if b {
                    st = ScanState::InManaged;
                }
            },
            ScanState::InManaged => {
                if line_is_end(l.as_str()) {
                    p.end_line = Some(l.clone());
                    st = ScanState::InAfter;
                } else if line_is_reg(l.as_str()) {
                    if !contains_line(&p.stmts, l) {
                        push_line(&mut p.stmts, l);
                    }
                } else {
                    push_line(&mut p.after, l);
                }
            },
            ScanState::InAfter => {
                push_line(&mut p.after, l);
            },
        }
        proof {
            assert((st, p@) == scan_step(st0, p0, rest[0]));
            assert(scan_from(st0, p0, rest) == scan_from(st, p@, all.skip(i + 1)));
        }
        i += 1;
    }
    proof {
        assert(all.skip(n as int).len() == 0);
        assert(scan_from(st, p@, all.skip(n as int)) == (st, p@));
    }
    p
}

/// No line among the first `n` of `ls` is a begin-marker line.
pub open spec fn no_begin_in(ls: Seq<Seq<char>>, n: int) -> bool {
    forall|i: int| 0 <= i < n ==> !is_begin_line(#[trigger] ls[i])
}

/// Every line of `ls` is a registration statement.
pub open spec fn all_reg(ls: Seq<Seq<char>>) -> bool {
    forall|i: int| 0 <= i < ls.len() ==> is_reg_line(#[trigger] ls[i])
}

/// Shape invariant of the scan: the statements collected so far all
/// match the registration pattern and are pairwise distinct; the begin
/// marker is the last line of `before` once the scan has passed it and
/// occurs nowhere earlier; the end line is set exactly once the scan
/// has passed the end marker, and then matches the end pattern.
pub open spec fn scan_wf(m: ScanState, p: ScanPartition) -> bool {
    &&& all_reg(p.stmts)
    &&& p.stmts.no_duplicates()
    &&& (m == ScanState::InBefore ==> no_begin_in(p.before, p.before.len() as int))
    &&& (m != ScanState::InBefore ==> p.before.len() > 0 && is_begin_line(p.before.last())
        && no_begin_in(p.before, p.before.len() - 1))
    &&& (match p.end_line {
        Some(e) => is_end_line(e) && m == ScanState::InAfter,
        None => m != ScanState::InAfter,
    })
}

/// The scan preserves its shape invariant.
pub proof fn lemma_scan_wf(m: ScanState, p: ScanPartition, ls: Seq<Seq<char>>)
    requires
        scan_wf(m, p),
    ensures
        scan_wf(scan_from(m, p, ls).0, scan_from(m, p, ls).1),
    decreases ls.len(),
{
    if ls.len() > 0 {
        let l = ls[0];
        let sp = scan_step(m, p, l);
        assert(scan_wf(sp.0, sp.1)) by {
            match m {
                ScanState::InBefore => {
                    let b2 = p.before.push(l);
                    assert(b2.last() == l);
                    assert(forall|i: int| 0 <= i < p.before.len()
                        ==> b2[i] == p.before[i]);
                },
                ScanState::InManaged => {
                    if !is_end_line(l) && is_reg_line(l) && !p.stmts.contains(l) {
                        let s2 = p.stmts.push(l);
                        assert(forall|i: int| 0 <= i < p.stmts.len()
                            ==> s2[i] == p.stmts[i]);
                        assert(s2.last() == l);
                        assert(forall|i: int| 0 <= i < p.stmts.len() ==> p.stmts[i] != l);
                        assert(s2.no_duplicates());
                        assert(all_reg(s2));
                    }
                },
                ScanState::InAfter => {},
            }
        }
        lemma_scan_wf(sp.0, sp.1, ls.drop_first());
    }
}

/// The whole scan of any manifest satisfies the shape invariant.
pub proof fn lemma_scan_lines_wf(ls: Seq<Seq<char>>)
    ensures
        scan_wf(scan_from(ScanState::InBefore, empty_partition(), ls).0, scan_lines(ls)),
{
    lemma_scan_wf(ScanState::InBefore, empty_partition(), ls);
}

/// Scanning a concatenation scans the first part, then continues over
/// the second from where the first left off.
pub proof fn lemma_scan_append(m: ScanState, p: ScanPartition, xs: Seq<Seq<char>>,
    ys: Seq<Seq<char>>)
    ensures
        scan_from(m, p, xs + ys) == ({
            let sp = scan_from(m, p, xs);
            scan_from(sp.0, sp.1, ys)
        }),
    decreases xs.len(),
{
    if xs.len() == 0 {
        assert(xs + ys =~= ys);
    } else {
        let sp = scan_step(m, p, xs[0]);
        assert((xs + ys)[0] == xs[0]);
        assert((xs + ys).drop_first() =~= xs.drop_first() + ys);
        lemma_scan_append(sp.0, sp.1, xs.drop_first(), ys);
    }
}

/// Scanning a run of lines whose only begin marker is the last moves
/// the whole run into `before` and ends up inside the managed region.
pub proof fn lemma_scan_before_run(p: ScanPartition, ls: Seq<Seq<char>>)
    requires
        ls.len() > 0,
        is_begin_line(ls.last()),
        no_begin_in(ls, ls.len() - 1),
    ensures
        scan_from(ScanState::InBefore, p, ls) == (ScanState::InManaged,
            ScanPartition { before: p.before + ls, ..p }),
    decreases ls.len(),
{
    let l = ls[0];
    if ls.len() == 1 {
        assert(l == ls.last());
        assert(p.before.push(l) =~= p.before + ls);
        assert(ls.drop_first().len() == 0);
        let sp = scan_step(ScanState::InBefore, p, l);
        assert(scan_from(sp.0, sp.1, ls.drop_first()) == sp);
        assert(scan_from(ScanState::InBefore, p, ls) == sp);
        assert(sp.1 =~= ScanPartition { before: p.before + ls, ..p });
    } else {
        assert(!is_begin_line(l));
        let p2 = ScanPartition { before: p.before.push(l), ..p };
        assert(ls.drop_first().last() == ls.last());
        assert(no_begin_in(ls.drop_first(), ls.drop_first().len() - 1)) by {
            assert(forall|i: int| 0 <= i < ls.drop_first().len() - 1
                ==> ls.drop_first()[i] == ls[i + 1]);
        }
        lemma_scan_before_run(p2, ls.drop_first());
        assert(p2.before + ls.drop_first() =~= p.before + ls);
    }
}

/// Scanning distinct registration lines, none already collected, from
/// inside the managed region collects them all, in order.
pub proof fn lemma_scan_reg_run(p: ScanPartition, ls: Seq<Seq<char>>)
    requires
        all_reg(ls),
        ls.no_duplicates(),
        forall|i: int| 0 <= i < ls.len() ==> !p.stmts.contains(#[trigger] ls[i]),
    ensures
        scan_from(ScanState::InManaged, p, ls) == (ScanState::InManaged,
            ScanPartition { stmts: p.stmts + ls, ..p }),
    decreases ls.len(),
{
    if ls.len() == 0 {
        assert(p.stmts + ls =~= p.stmts);
        assert(ScanPartition { stmts: p.stmts + ls, ..p } =~= p);
    } else {
        let l = ls[0];
        crate::markers::lemma_reg_line_not_marker(l);
        assert(!p.stmts.contains(l));
        let p2 = ScanPartition { stmts: p.stmts.push(l), ..p };
        assert(all_reg(ls.drop_first()) && ls.drop_first().no_duplicates()) by {
            assert(forall|i: int| 0 <= i < ls.drop_first().len()
                ==> ls.drop_first()[i] == ls[i + 1]);
        }
        assert(forall|i: int| 0 <= i < ls.drop_first().len()
            ==> !p2.stmts.contains(#[trigger] ls.drop_first()[i])) by {
            assert(forall|i: int| 0 <= i < ls.drop_first().len()
                ==> ls.drop_first()[i] == ls[i + 1]);
            assert(forall|i: int, j: int| 0 <= i < p.stmts.len() && 0 <= j < ls.len()
                ==> p.stmts[i] != ls[j]);
        }
        lemma_scan_reg_run(p2, ls.drop_first());
        assert(p2.stmts + ls.drop_first() =~= p.stmts + ls);
    }
}

/// Scanning past the end marker appends every remaining line to `after`.
pub proof fn lemma_scan_after_run(p: ScanPartition, ls: Seq<Seq<char>>)
    ensures
        scan_from(ScanState::InAfter, p, ls) == (ScanState::InAfter,
            ScanPartition { after: p.after + ls, ..p }),
    decreases ls.len(),
{
    if ls.len() == 0 {
        assert(p.after + ls =~= p.after);
        assert(ScanPartition { after: p.after + ls, ..p } =~= p);
    } else {
        let p2 = ScanPartition { after: p.after.push(ls[0]), ..p };
        lemma_scan_after_run(p2, ls.drop_first());
        assert(p2.after + ls.drop_first() =~= p.after + ls);
    }
}

/// Once past the begin marker the scan never touches `before` again.
pub proof fn lemma_scan_keeps_before(m: ScanState, p: ScanPartition, ls: Seq<Seq<char>>)
    requires
        m != ScanState::InBefore,
    ensures
        scan_from(m, p, ls).1.before == p.before,
        scan_from(m, p, ls).0 != ScanState::InBefore,
    decreases ls.len(),
{
    if ls.len() > 0 {
        let sp = scan_step(m, p, ls[0]);
        lemma_scan_keeps_before(sp.0, sp.1, ls.drop_first());
    }
}

/// The scan only ever appends to `after`.
pub proof fn lemma_scan_after_grows(m: ScanState, p: ScanPartition, ls: Seq<Seq<char>>)
    ensures
        p.after.is_prefix_of(scan_from(m, p, ls).1.after),
    decreases ls.len(),
{
    if ls.len() == 0 {
        assert(p.after.is_prefix_of(p.after)) by {
            assert(p.after =~= p.after.subrange(0, p.after.len() as int));
        }
    } else {
        let sp = scan_step(m, p, ls[0]);
        lemma_scan_after_grows(sp.0, sp.1, ls.drop_first());
        let fin = scan_from(m, p, ls).1.after;
        assert(p.after.is_prefix_of(sp.1.after)) by {
            assert(p.after =~= sp.1.after.subrange(0, p.after.len() as int));
        }
        assert(p.after.is_prefix_of(fin)) by {
            assert(p.after =~= fin.subrange(0, p.after.len() as int));
        }
    }
}

/// Every line the scan files away came from its input (or was already
/// in the partition it started from).
pub proof fn lemma_scan_elements(m: ScanState, p: ScanPartition, ls: Seq<Seq<char>>)
    ensures
        forall|x: Seq<char>| scan_from(m, p, ls).1.before.contains(x)
            ==> p.before.contains(x) || ls.contains(x),
        forall|x: Seq<char>| scan_from(m, p, ls).1.stmts.contains(x)
            ==> p.stmts.contains(x) || ls.contains(x),
        forall|x: Seq<char>| scan_from(m, p, ls).1.after.contains(x)
            ==> p.after.contains(x) || ls.contains(x),
        forall|x: Seq<char>| scan_from(m, p, ls).1.end_line == Some(x)
            ==> p.end_line == Some(x) || ls.contains(x),
    decreases ls.len(),
{
    if ls.len() > 0 {
        let sp = scan_step(m, p, ls[0]);
        lemma_scan_elements(sp.0, sp.1, ls.drop_first());
        assert(ls.contains(ls[0]));
        assert(forall|x: Seq<char>| ls.drop_first().contains(x) ==> ls.contains(x)) by {
            assert forall|x: Seq<char>| ls.drop_first().contains(x) implies ls.contains(x) by {
                let k = choose|k: int| 0 <= k < ls.drop_first().len()
                    && ls.drop_first()[k] == x;
                assert(ls[k + 1] == x);
            }
        }
        assert(forall|x: Seq<char>| sp.1.before.contains(x)
            ==> p.before.contains(x) || x == ls[0]) by {
            assert forall|x: Seq<char>| sp.1.before.contains(x)
                implies p.before.contains(x) || x == ls[0] by {
                let k = choose|k: int| 0 <= k < sp.1.before.len() && sp.1.before[k] == x;
                if k < p.before.len() && sp.1.before.len() == p.before.len() + 1 {
                    assert(p.before[k] == x);
                }
            }
        }
        assert(forall|x: Seq<char>| sp.1.stmts.contains(x)
            ==> p.stmts.contains(x) || x == ls[0]) by {
            assert forall|x: Seq<char>| sp.1.stmts.contains(x)
                implies p.stmts.contains(x) || x == ls[0] by {
                let k = choose|k: int| 0 <= k < sp.1.stmts.len() && sp.1.stmts[k] == x;
                if k < p.stmts.len() {
                    assert(p.stmts[k] == x);
                }
            }
        }
        assert(forall|x: Seq<char>| sp.1.after.contains(x)
            ==> p.after.contains(x) || x == ls[0]) by {
            assert forall|x: Seq<char>| sp.1.after.contains(x)
                implies p.after.contains(x) || x == ls[0] by {
                let k = choose|k: int| 0 <= k < sp.1.after.len() && sp.1.after[k] == x;
                if k < p.after.len() {
                    assert(p.after[k] == x);
                }
            }
        }
    }
}

} // verus!
