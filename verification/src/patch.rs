//! The manifest patch routine: scan the file's lines, add the new
//! registration statement unless present, sort the managed region, and
//! join the three segments back into the rewritten file text.

use vstd::prelude::*;
use vstd::string::*;
use crate::lines::{join_block, join_tail, spec_split_lines, split_lines};
use crate::order::{lex_leq_fn, sort_lines};
use crate::scan::{contains_line, push_line, scan, scan_lines, Partition, ScanPartition};

verus! {

/// The statement lines of the managed region after the patch: the new
/// statement added unless its exact text is already present, the whole
/// sorted into ascending lexicographic order.
pub open spec fn spec_patched_stmts(stmts: Seq<Seq<char>>, stmt: Seq<char>) -> Seq<Seq<char>> {
    let with_new = if stmts.contains(stmt) {
        stmts
    } else {
        stmts.push(stmt)
    };
    with_new.sort_by(lex_leq_fn())
}

/// The managed block as written back: the sorted statements, then the
/// end-marker line if the input had one.
pub open spec fn spec_managed_block(p: ScanPartition, stmt: Seq<char>) -> Seq<Seq<char>> {
    match p.end_line {
        Some(e) => spec_patched_stmts(p.stmts, stmt).push(e),
        None => spec_patched_stmts(p.stmts, stmt),
    }
}

/// The patched manifest text: the segment through the begin marker,
/// then the managed block, each line ended with a newline, then the
/// remaining lines with no forced trailing newline.
pub open spec fn spec_patch(content: Seq<char>, stmt: Seq<char>) -> Seq<char> {
    let p = scan_lines(spec_split_lines(content));
    join_block(p.before) + join_block(spec_managed_block(p, stmt)) + join_tail(p.after)
}

/// Rewrites the manifest text so that its managed region also carries
/// `statement`, exactly once, in sorted order.
pub fn patch_manifest(content: &str, statement: &str) -> (out: String)
    ensures
        out@ == spec_patch(content@, statement@),
{
    let lines = split_lines(content);
    let p = scan(&lines);
    let ghost sp = scan_lines(spec_split_lines(content@));
    let Partition { before, stmts, end_line, after } = p;
    let mut stmts = stmts;
    let stmt_string = String::from_str(statement);
    if !contains_line(&stmts, &stmt_string) {
        push_line(&mut stmts, &stmt_string);
    }
    let mut managed = sort_lines(stmts);
    proof {
        assert(managed.deep_view() == spec_patched_stmts(sp.stmts, statement@));
    }
    match &end_line {
        Some(e) => {
            push_line(&mut managed, e);
        },
        None => {},
    }
    proof {
        assert(managed.deep_view() == spec_managed_block(sp, statement@));
    }
    let mut out = String::new();
    append_segments(&mut out, &before, &managed, &after);
    proof {
        assert(out@ =~= spec_patch(content@, statement@));
    }
    out
}

/// Appends the three rewritten segments of the manifest to `out`.
fn append_segments(out: &mut String, before: &Vec<String>, managed: &Vec<String>,
    after: &Vec<String>)
    ensures
        final(out)@ == old(out)@ + join_block(before.deep_view()) + join_block(
            managed.deep_view()) + join_tail(after.deep_view()),
{
    crate::lines::append_block(out, before);
    crate::lines::append_block(out, managed);
    crate::lines::append_tail(out, after);
}

} // verus!
