//! Splitting manifest text into lines and joining the rewritten
//! segments back into text.

use vstd::prelude::*;
use vstd::string::*;

verus! {

/// A trailing carriage return is dropped when a line is read.
pub open spec fn strip_cr(l: Seq<char>) -> Seq<char> {
    if l.len() > 0 && l.last() == '\r' {
        l.drop_last()
    } else {
        l
    }
}

/// The lines of `rest`, with `cur` the partial line read so far.  A
/// line ends at `'\n'` and loses a carriage return just before it; a
/// final fragment without a newline still counts as a line.  This is
/// exactly how the manifest is read line by line.
pub open spec fn split_rest(cur: Seq<char>, rest: Seq<char>) -> Seq<Seq<char>>
    decreases rest.len(),
{
    if rest.len() == 0 {
        if cur.len() == 0 {
            Seq::empty()
        } else {
            seq![cur]
        }
    } else if rest[0] == '\n' {
        seq![strip_cr(cur)] + split_rest(Seq::empty(), rest.drop_first())
    } else {
        split_rest(cur.push(rest[0]), rest.drop_first())
    }
}

/// The lines of a manifest text.
pub open spec fn spec_split_lines(s: Seq<char>) -> Seq<Seq<char>> {
    split_rest(Seq::empty(), s)
}

/// Lines each followed by `'\n'`; an empty sequence of lines still
/// contributes the one `'\n'` that joining-then-appending produces.
pub open spec fn cat_lines_nl(ls: Seq<Seq<char>>) -> Seq<char>
    decreases ls.len(),
{
    if ls.len() == 0 {
        Seq::empty()
    } else {
        ls[0] + seq!['\n'] + cat_lines_nl(ls.drop_first())
    }
}

/// A block of lines as written back: joined with `'\n'` plus a
/// trailing `'\n'` (which is all that remains of an empty block).
pub open spec fn join_block(ls: Seq<Seq<char>>) -> Seq<char> {
    if ls.len() == 0 {
        seq!['\n']
    } else {
        cat_lines_nl(ls)
    }
}

/// The final lines as written back: joined with `'\n'`, with no forced
/// newline after the last.
pub open spec fn join_tail(ls: Seq<Seq<char>>) -> Seq<char>
    decreases ls.len(),
{
    if ls.len() == 0 {
        Seq::empty()
    } else if ls.len() == 1 {
        ls[0]
    } else {
        ls[0] + seq!['\n'] + join_tail(ls.drop_first())
    }
}

/// Continuation of [`join_tail`] after the first line: each further
/// line preceded by `'\n'`.
pub open spec fn tail_cont(ls: Seq<Seq<char>>) -> Seq<char>
    decreases ls.len(),
{
    if ls.len() == 0 {
        Seq::empty()
    } else {
        seq!['\n'] + ls[0] + tail_cont(ls.drop_first())
    }
}

pub proof fn lemma_join_tail_cont(ls: Seq<Seq<char>>)
    requires
        ls.len() > 0,
    ensures
        join_tail(ls) == ls[0] + tail_cont(ls.drop_first()),
    decreases ls.len(),
{
    if ls.len() == 1 {
        assert(join_tail(ls) =~= ls[0] + tail_cont(ls.drop_first()));
    } else {
        lemma_join_tail_cont(ls.drop_first());
        assert(join_tail(ls) =~= ls[0] + tail_cont(ls.drop_first()));
    }
}

/// Splits manifest text into its lines, as reading it line by line would.
pub fn split_lines(content: &str) -> (lines: Vec<String>)
    ensures
        lines.deep_view() == spec_split_lines(content@),
{
    let n = content.unicode_len();
    let mut lines: Vec<String> = Vec::new();
    let mut start: usize = 0;
    let mut i: usize = 0;
    proof {
        assert(content@.subrange(0, 0) =~= Seq::<char>::empty());
        assert(content@.skip(0) =~= content@);
        assert(lines.deep_view() =~= Seq::<Seq<char>>::empty());
        assert(Seq::<Seq<char>>::empty() + split_rest(Seq::empty(), content@)
            =~= spec_split_lines(content@));
    }
    while i < n
        invariant
            0 <= start <= i <= n,
            n == content@.len(),
            lines.deep_view() + split_rest(
                content@.subrange(start as int, i as int),
                content@.skip(i as int),
            ) == spec_split_lines(content@),
        decreases n - i,
    {
        let ghost cur = content@.subrange(start as int, i as int);
        let ghost rest = content@.skip(i as int);
        let c = content.get_char(i);
        proof {
            assert(rest[0] == content@[i as int]);
            assert(rest.drop_first() =~= content@.skip(i + 1));
        }
        if c == '\n' {
            let line_end: usize = if i > start && content.get_char(i - 1) == '\r' {
                i - 1
            } else {
                i
            };
            let piece = content.substring_char(start, line_end);
            let line = String::from_str(piece);
            proof {
                assert(split_rest(cur, rest) == seq![strip_cr(cur)] + split_rest(
                    Seq::empty(), rest.drop_first()));
                if i > start && content@[i - 1] == '\r' {
                    assert(cur.last() == content@[i - 1]);
                    assert(line@ =~= strip_cr(cur));
                } else {
                    if cur.len() > 0 {
                        assert(cur.last() == content@[i - 1]);
                    }
                    assert(line@ =~= strip_cr(cur));
                }
            }
            let ghost dv = lines.deep_view();
            lines.push(line);
            proof {
                assert(lines.deep_view() =~= dv.push(strip_cr(cur))) by {
                    assert(forall|k: int| 0 <= k < lines@.len()
                        ==> lines.deep_view()[k] == lines@[k]@);
                }
                assert(content@.subrange(i + 1, i + 1) =~= Seq::<char>::empty());
                assert(dv.push(strip_cr(cur)) + split_rest(Seq::empty(), content@.skip(i + 1))
                    =~= dv + (seq![strip_cr(cur)] + split_rest(Seq::empty(), content@.skip(i + 1))));
            }
            start = i + 1;
        } else {
            proof {
                assert(split_rest(cur, rest) == split_rest(cur.push(rest[0]), rest.drop_first()));
                assert(cur.push(rest[0]) =~= content@.subrange(start as int, i + 1));
            }
        }
        i += 1;
    }
    if start < n {
        let piece = content.substring_char(start, n);
        let line = String::from_str(piece);
        let ghost cur = content@.subrange(start as int, n as int);
        let ghost dv = lines.deep_view();
        lines.push(line);
        proof {
            assert(content@.skip(n as int).len() == 0);
            assert(split_rest(cur, content@.skip(n as int)) == seq![cur]);
            assert(lines.deep_view() =~= dv.push(cur)) by {
                assert(forall|k: int| 0 <= k < lines@.len()
                    ==> lines.deep_view()[k] == lines@[k]@);
            }
            assert(dv.push(cur) =~= dv + seq![cur]);
        }
    } else {
        proof {
            assert(content@.subrange(start as int, n as int).len() == 0);
            assert(content@.subrange(start as int, n as int) =~= Seq::<char>::empty());
            assert(content@.skip(n as int).len() == 0);
            assert(split_rest(Seq::<char>::empty(), content@.skip(n as int))
                =~= Seq::<Seq<char>>::empty());
            assert(lines.deep_view() + Seq::<Seq<char>>::empty() =~= lines.deep_view());
        }
    }
    lines
}

/// Appends a block of lines: each line followed by `'\n'`, a bare
/// `'\n'` for an empty block.
pub fn append_block(out: &mut String, lines: &Vec<String>)
    ensures
        final(out)@ == old(out)@ + join_block(lines.deep_view()),
{
    let ghost dv = lines.deep_view();
    let n = lines.len();
    if n == 0 {
        out.append("\n");
        proof {
            reveal_strlit("\n");
            assert("\n"@ =~= seq!['\n']);
            assert(out@ =~= old(out)@ + join_block(dv));
        }
        return;
    }
    let mut i: usize = 0;
    proof {
        assert(dv.skip(0) =~= dv);
    }
    while i < n
        invariant
            0 <= i <= n,
            n == lines.len(),
            dv == lines.deep_view(),
            n > 0,
            out@ + cat_lines_nl(dv.skip(i as int)) == old(out)@ + join_block(dv),
        decreases n - i,
    {
        out.append(lines[i].as_str());
        out.append("\n");
        proof {
            reveal_strlit("\n");
            assert("\n"@ =~= seq!['\n']);
            let rest = dv.skip(i as int);
            assert(rest[0] == dv[i as int]);
            assert(rest.drop_first() =~= dv.skip(i + 1));
            assert(cat_lines_nl(rest) == rest[0] + seq!['\n'] + cat_lines_nl(dv.skip(i + 1)));
            assert(lines@[i as int]@ == dv[i as int]);
            assert(out@ + cat_lines_nl(dv.skip(i + 1)) =~= old(out)@ + join_block(dv));
        }
        i += 1;
    }
    proof {
        assert(dv.skip(n as int).len() == 0);
        assert(cat_lines_nl(dv.skip(n as int)) =~= Seq::<char>::empty());
        assert(out@ =~= out@ + cat_lines_nl(dv.skip(n as int)));
    }
}

/// Appends the final lines: joined with `'\n'`, nothing after the last.
pub fn append_tail(out: &mut String, lines: &Vec<String>)
    ensures
        final(out)@ == old(out)@ + join_tail(lines.deep_view()),
{
    let ghost dv = lines.deep_view();
    let n = lines.len();
    if n == 0 {
        proof {
            assert(out@ =~= old(out)@ + join_tail(dv));
        }
        return;
    }
    out.append(lines[0].as_str());
    proof {
        lemma_join_tail_cont(dv);
        assert(dv.skip(1) =~= dv.drop_first());
        assert(out@ + tail_cont(dv.skip(1)) =~= old(out)@ + join_tail(dv));
    }
    let mut i: usize = 1;
    while i < n
        invariant
            1 <= i <= n,
            n == lines.len(),
            dv == lines.deep_view(),
            out@ + tail_cont(dv.skip(i as int)) == old(out)@ + join_tail(dv),
        decreases n - i,
    {
        out.append("\n");
        out.append(lines[i].as_str());
        proof {
            reveal_strlit("\n");
            assert("\n"@ =~= seq!['\n']);
            let rest = dv.skip(i as int);
            assert(rest[0] == dv[i as int]);
            assert(rest.drop_first() =~= dv.skip(i + 1));
            assert(tail_cont(rest) == seq!['\n'] + rest[0] + tail_cont(dv.skip(i + 1)));
            assert(lines@[i as int]@ == dv[i as int]);
            assert(out@ + tail_cont(dv.skip(i + 1)) =~= old(out)@ + join_tail(dv));
        }
        i += 1;
    }
    proof {
        assert(dv.skip(n as int).len() == 0);
        assert(tail_cont(dv.skip(n as int)) =~= Seq::<char>::empty());
        assert(out@ =~= out@ + tail_cont(dv.skip(n as int)));
    }
}

/// The line contains no newline character.
pub open spec fn no_nl(l: Seq<char>) -> bool {
    forall|j: int| 0 <= j < l.len() ==> l[j] != '\n'
}

/// A line that splitting joined text reproduces exactly: no newline
/// inside, no carriage return at the end.
pub open spec fn clean_line(l: Seq<char>) -> bool {
    no_nl(l) && (l.len() > 0 ==> l.last() != '\r')
}

pub open spec fn all_clean(ls: Seq<Seq<char>>) -> bool {
    forall|i: int| 0 <= i < ls.len() ==> clean_line(#[trigger] ls[i])
}

/// Lines produced by splitting contain no newline character.
pub proof fn lemma_split_rest_lines_no_nl(cur: Seq<char>, rest: Seq<char>)
    requires
        no_nl(cur),
    ensures
        forall|i: int| 0 <= i < split_rest(cur, rest).len()
            ==> no_nl(#[trigger] split_rest(cur, rest)[i]),
    decreases rest.len(),
{
    if rest.len() == 0 {
        if cur.len() > 0 {
            assert(split_rest(cur, rest)[0] == cur);
        }
    } else if rest[0] == '\n' {
        assert(no_nl(strip_cr(cur))) by {
            assert(forall|j: int| 0 <= j < strip_cr(cur).len()
                ==> strip_cr(cur)[j] == cur[j]);
        }
        lemma_split_rest_lines_no_nl(Seq::empty(), rest.drop_first());
        assert forall|i: int| 0 <= i < split_rest(cur, rest).len()
            implies no_nl(#[trigger] split_rest(cur, rest)[i]) by {
            if i == 0 {
                assert(split_rest(cur, rest)[0] == strip_cr(cur));
            } else {
                assert(split_rest(cur, rest)[i]
                    == split_rest(Seq::<char>::empty(), rest.drop_first())[i - 1]);
            }
        }
    } else {
        assert(no_nl(cur.push(rest[0]))) by {
            assert(forall|j: int| 0 <= j < cur.len() ==> cur.push(rest[0])[j] == cur[j]);
            assert(cur.push(rest[0])[cur.len() as int] == rest[0]);
        }
        lemma_split_rest_lines_no_nl(cur.push(rest[0]), rest.drop_first());
        assert(split_rest(cur, rest) == split_rest(cur.push(rest[0]), rest.drop_first()));
    }
}

/// Splitting text without a newline yields that text as its one line
/// (or nothing, if it is empty).
pub proof fn lemma_split_rest_no_nl(cur: Seq<char>, l: Seq<char>)
    requires
        no_nl(l),
    ensures
        split_rest(cur, l) == if cur.len() + l.len() > 0 {
            seq![cur + l]
        } else {
            Seq::<Seq<char>>::empty()
        },
    decreases l.len(),
{
    if l.len() == 0 {
        assert(cur + l =~= cur);
        if cur.len() > 0 {
            assert(seq![cur] =~= seq![cur + l]);
        }
    } else {
        assert(l[0] != '\n');
        assert(no_nl(l.drop_first())) by {
            assert(forall|j: int| 0 <= j < l.drop_first().len()
                ==> l.drop_first()[j] == l[j + 1]);
        }
        lemma_split_rest_no_nl(cur.push(l[0]), l.drop_first());
        assert(cur.push(l[0]) + l.drop_first() =~= cur + l);
    }
}

/// Splitting consumes one joined line at a time.
pub proof fn lemma_split_line(cur: Seq<char>, l: Seq<char>, rest: Seq<char>)
    requires
        no_nl(l),
        (cur + l).len() > 0 ==> (cur + l).last() != '\r',
    ensures
        split_rest(cur, l + seq!['\n'] + rest) == seq![cur + l] + split_rest(
            Seq::<char>::empty(), rest),
    decreases l.len(),
{
    if l.len() == 0 {
        let s = l + seq!['\n'] + rest;
        assert(s =~= seq!['\n'] + rest);
        assert(s[0] == '\n');
        assert(s.drop_first() =~= rest);
        assert(cur + l =~= cur);
        assert(strip_cr(cur) == cur);
        assert(split_rest(cur, s) == seq![strip_cr(cur)] + split_rest(Seq::<char>::empty(),
            rest));
        assert(seq![strip_cr(cur)] =~= seq![cur + l]);
    } else {
        let s = l + seq!['\n'] + rest;
        assert(s[0] == l[0]);
        assert(l[0] != '\n');
        assert(s.drop_first() =~= l.drop_first() + seq!['\n'] + rest);
        assert(no_nl(l.drop_first())) by {
            assert(forall|j: int| 0 <= j < l.drop_first().len()
                ==> l.drop_first()[j] == l[j + 1]);
        }
        assert(cur.push(l[0]) + l.drop_first() =~= cur + l);
        lemma_split_line(cur.push(l[0]), l.drop_first(), rest);
        assert(seq![cur.push(l[0]) + l.drop_first()] =~= seq![cur + l]);
    }
}

/// Joining distributes over concatenation of line blocks.
pub proof fn lemma_cat_append(xs: Seq<Seq<char>>, ys: Seq<Seq<char>>)
    ensures
        cat_lines_nl(xs + ys) == cat_lines_nl(xs) + cat_lines_nl(ys),
    decreases xs.len(),
{
    if xs.len() == 0 {
        assert(xs + ys =~= ys);
        assert(cat_lines_nl(xs) + cat_lines_nl(ys) =~= cat_lines_nl(ys));
    } else {
        assert((xs + ys)[0] == xs[0]);
        assert((xs + ys).drop_first() =~= xs.drop_first() + ys);
        lemma_cat_append(xs.drop_first(), ys);
        assert(cat_lines_nl(xs + ys) =~= cat_lines_nl(xs) + cat_lines_nl(ys));
    }
}

/// Splitting text that opens with joined clean lines recovers those
/// lines, then splits the remainder.
pub proof fn lemma_split_cat(xs: Seq<Seq<char>>, tail: Seq<char>)
    requires
        all_clean(xs),
    ensures
        split_rest(Seq::<char>::empty(), cat_lines_nl(xs) + tail) == xs + split_rest(
            Seq::<char>::empty(), tail),
    decreases xs.len(),
{
    if xs.len() == 0 {
        assert(cat_lines_nl(xs) + tail =~= tail);
        assert(xs + split_rest(Seq::<char>::empty(), tail) =~= split_rest(
            Seq::<char>::empty(), tail));
    } else {
        let cont = cat_lines_nl(xs.drop_first()) + tail;
        assert(cat_lines_nl(xs) + tail =~= xs[0] + seq!['\n'] + cont);
        assert(clean_line(xs[0]));
        assert(Seq::<char>::empty() + xs[0] =~= xs[0]);
        lemma_split_line(Seq::<char>::empty(), xs[0], cont);
        assert(all_clean(xs.drop_first())) by {
            assert(forall|i: int| 0 <= i < xs.drop_first().len()
                ==> xs.drop_first()[i] == xs[i + 1]);
        }
        lemma_split_cat(xs.drop_first(), tail);
        assert(seq![Seq::<char>::empty() + xs[0]] =~= seq![xs[0]]);
        assert(seq![xs[0]] + (xs.drop_first() + split_rest(Seq::<char>::empty(), tail))
            =~= xs + split_rest(Seq::<char>::empty(), tail));
    }
}

/// Splitting a joined tail of clean lines, the last nonempty, recovers
/// exactly those lines.
pub proof fn lemma_split_tail(ls: Seq<Seq<char>>)
    requires
        all_clean(ls),
        ls.len() > 0 ==> ls.last().len() > 0,
    ensures
        split_rest(Seq::<char>::empty(), join_tail(ls)) == ls,
    decreases ls.len(),
{
    if ls.len() == 0 {
        assert(split_rest(Seq::<char>::empty(), join_tail(ls))
            =~= Seq::<Seq<char>>::empty());
        assert(ls =~= Seq::<Seq<char>>::empty());
    } else if ls.len() == 1 {
        assert(clean_line(ls[0]));
        lemma_split_rest_no_nl(Seq::<char>::empty(), ls[0]);
        assert(Seq::<char>::empty() + ls[0] =~= ls[0]);
        assert(ls[0].len() > 0);
        assert(seq![ls[0]] =~= ls);
    } else {
        assert(clean_line(ls[0]));
        assert(Seq::<char>::empty() + ls[0] =~= ls[0]);
        lemma_split_line(Seq::<char>::empty(), ls[0], join_tail(ls.drop_first()));
        assert(all_clean(ls.drop_first())) by {
            assert(forall|i: int| 0 <= i < ls.drop_first().len()
                ==> ls.drop_first()[i] == ls[i + 1]);
        }
        assert(ls.drop_first().last() == ls.last());
        lemma_split_tail(ls.drop_first());
        assert(seq![Seq::<char>::empty() + ls[0]] + ls.drop_first() =~= ls);
    }
}

} // verus!
