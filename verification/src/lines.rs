//! Splitting text into lines on the `'\n'` separator and joining lines back,
//! together with the laws relating the two.

use vstd::prelude::*;
use vstd::string::StrSliceExecFns;
use vstd::string::StringExecFns;

verus! {

/// The lines of `t`, split on `'\n'`. Splitting never yields an empty
/// sequence: text without a separator is one line, and empty text is one
/// empty line.
pub open spec fn spec_split_lines(t: Seq<char>) -> Seq<Seq<char>>
    decreases t.len(),
{
    if t.len() == 0 {
        seq![Seq::<char>::empty()]
    } else {
        let prev = spec_split_lines(t.drop_last());
        if t.last() == '\n' {
            prev.push(Seq::<char>::empty())
        } else {
            prev.drop_last().push(prev.last().push(t.last()))
        }
    }
}

/// The lines of `ls` joined with `'\n'` between consecutive lines.
pub open spec fn spec_join_lines(ls: Seq<Seq<char>>) -> Seq<char>
    decreases ls.len(),
{
    if ls.len() == 0 {
        Seq::<char>::empty()
    } else if ls.len() == 1 {
        ls[0]
    } else {
        spec_join_lines(ls.drop_last()) + seq!['\n'] + ls.last()
    }
}

/// The number of `'\n'` separators in `t`.
pub open spec fn newline_count(t: Seq<char>) -> nat
    decreases t.len(),
{
    if t.len() == 0 {
        0
    } else {
        newline_count(t.drop_last()) + if t.last() == '\n' {
            1nat
        } else {
            0nat
        }
    }
}

/// Text with `n` separators splits into exactly `n + 1` lines; in particular
/// splitting never yields zero lines.
pub proof fn lemma_split_lines_len(t: Seq<char>)
    ensures
        spec_split_lines(t).len() == newline_count(t) + 1,
    decreases t.len(),
{
    if t.len() > 0 {
        lemma_split_lines_len(t.drop_last());
    }
}

/// Adding an empty line at the end of a non-empty line sequence appends one
/// separator to the join.
proof fn lemma_join_push_empty(ls: Seq<Seq<char>>)
    requires
        ls.len() >= 1,
    ensures
        spec_join_lines(ls.push(Seq::<char>::empty())) == spec_join_lines(ls).push('\n'),
{
    let cur = ls.push(Seq::<char>::empty());
    assert(cur.drop_last() =~= ls);
    assert(cur.last() =~= Seq::<char>::empty());
    assert(spec_join_lines(cur) =~= spec_join_lines(ls).push('\n'));
}

/// Extending the last line of a non-empty line sequence by one character
/// extends the join by that character.
proof fn lemma_join_push_char(ls: Seq<Seq<char>>, c: char)
    requires
        ls.len() >= 1,
    ensures
        spec_join_lines(ls.drop_last().push(ls.last().push(c))) == spec_join_lines(ls).push(c),
{
    let cur = ls.drop_last().push(ls.last().push(c));
    if ls.len() == 1 {
        assert(spec_join_lines(cur) == cur[0]);
        assert(spec_join_lines(cur) =~= spec_join_lines(ls).push(c));
    } else {
        assert(cur.drop_last() =~= ls.drop_last());
        assert(cur.last() == ls.last().push(c));
        assert(spec_join_lines(cur) == spec_join_lines(ls.drop_last()) + seq!['\n']
            + ls.last().push(c));
        assert(spec_join_lines(ls) == spec_join_lines(ls.drop_last()) + seq!['\n'] + ls.last());
        assert(spec_join_lines(cur) =~= spec_join_lines(ls).push(c));
    }
}

/// Joining the lines that `t` was split on reproduces `t` exactly, for every
/// text `t`.
pub proof fn lemma_join_split(t: Seq<char>)
    ensures
        spec_join_lines(spec_split_lines(t)) == t,
    decreases t.len(),
{
    if t.len() == 0 {
        assert(spec_join_lines(seq![Seq::<char>::empty()]) =~= t);
    } else {
        lemma_join_split(t.drop_last());
        lemma_split_lines_len(t.drop_last());
        let prev = spec_split_lines(t.drop_last());
        if t.last() == '\n' {
            lemma_join_push_empty(prev);
            assert(t.drop_last().push('\n') =~= t);
        } else {
            lemma_join_push_char(prev, t.last());
            assert(t.drop_last().push(t.last()) =~= t);
        }
    }
}

/// A text without the separator splits into the single line that is the text
/// itself.
pub proof fn lemma_split_no_newline(t: Seq<char>)
    requires
        !t.contains('\n'),
    ensures
        spec_split_lines(t) == seq![t],
    decreases t.len(),
{
    if t.len() == 0 {
        assert(t =~= Seq::<char>::empty());
    } else {
        assert(!t.drop_last().contains('\n')) by {
            if t.drop_last().contains('\n') {
                let i = choose|i: int| 0 <= i < t.drop_last().len() && t.drop_last()[i] == '\n';
                assert(t[i] == '\n');
            }
        }
        lemma_split_no_newline(t.drop_last());
        assert(t[t.len() - 1] != '\n');
        assert(spec_split_lines(t) =~= seq![t.drop_last().push(t.last())]);
        assert(t.drop_last().push(t.last()) =~= t);
    }
}

/// Appending a separator and then a separator-free line `b` to a text `a`
/// appends exactly the line `b` to `a`'s split.
pub proof fn lemma_split_append_line(a: Seq<char>, b: Seq<char>)
    requires
        !b.contains('\n'),
    ensures
        spec_split_lines(a + seq!['\n'] + b) == spec_split_lines(a).push(b),
    decreases b.len(),
{
    lemma_split_lines_len(a);
    if b.len() == 0 {
        assert(b =~= Seq::<char>::empty());
        assert((a + seq!['\n'] + b) =~= a.push('\n'));
        assert(a.push('\n').len() > 0);
        assert(a.push('\n').drop_last() =~= a);
        assert(spec_split_lines(a.push('\n')) =~= spec_split_lines(a).push(b));
    } else {
        assert(!b.drop_last().contains('\n')) by {
            if b.drop_last().contains('\n') {
                let i = choose|i: int| 0 <= i < b.drop_last().len() && b.drop_last()[i] == '\n';
                assert(b[i] == '\n');
            }
        }
        lemma_split_append_line(a, b.drop_last());
        let t = a + seq!['\n'] + b;
        assert(b[b.len() - 1] != '\n');
        assert(t.len() > 0);
        assert(t.last() == b.last());
        assert(t.drop_last() =~= a + seq!['\n'] + b.drop_last());
        let prev = spec_split_lines(a).push(b.drop_last());
        assert(spec_split_lines(t) =~= prev.drop_last().push(prev.last().push(b.last())));
        assert(prev.drop_last() =~= spec_split_lines(a));
        assert(prev.last().push(b.last()) =~= b);
        assert(spec_split_lines(t) =~= spec_split_lines(a).push(b));
    }
}

/// Splitting the join of a non-empty sequence of separator-free lines gives
/// back exactly those lines.
pub proof fn lemma_split_join(ls: Seq<Seq<char>>)
    requires
        ls.len() >= 1,
        forall|i: int| 0 <= i < ls.len() ==> !(#[trigger] ls[i]).contains('\n'),
    ensures
        spec_split_lines(spec_join_lines(ls)) == ls,
    decreases ls.len(),
{
    if ls.len() == 1 {
        lemma_split_no_newline(ls[0]);
        assert(spec_split_lines(spec_join_lines(ls)) =~= ls);
    } else {
        lemma_split_join(ls.drop_last());
        lemma_split_append_line(spec_join_lines(ls.drop_last()), ls.last());
        assert(spec_split_lines(spec_join_lines(ls)) =~= ls.drop_last().push(ls.last()));
        assert(ls.drop_last().push(ls.last()) =~= ls);
    }
}

/// Splits `s` into its lines on the `'\n'` separator, preserving empty lines.
pub fn split_lines(s: &str) -> (r: Vec<String>)
    ensures
        r.deep_view() == spec_split_lines(s@),
{
    let n: usize = s.unicode_len();
    let mut r: Vec<String> = Vec::new();
    let mut start: usize = 0;
    let mut i: usize = 0;
    proof {
        assert(s@.subrange(0, 0) =~= Seq::<char>::empty());
        assert(r.deep_view() =~= Seq::<Seq<char>>::empty());
        assert(r.deep_view().push(s@.subrange(0, 0)) =~= seq![Seq::<char>::empty()]);
    }
    while i < n
        invariant
            start <= i <= n,
            n == s@.len(),
            spec_split_lines(s@.subrange(0, i as int)) == r.deep_view().push(
                s@.subrange(start as int, i as int),
            ),
        decreases n - i,
    {
        let ghost r0 = r.deep_view();
        let ghost cur0 = s@.subrange(start as int, i as int);
        let c = s.get_char(i);
        proof {
            assert(s@.subrange(0, i + 1).drop_last() =~= s@.subrange(0, i as int));
            assert(s@.subrange(0, i + 1).last() == s@[i as int]);
        }
        if c == '\n' {
            let line = s.substring_char(start, i).to_owned();
            r.push(line);
            start = i + 1;
            proof {
                assert(r.deep_view() =~= r0.push(cur0));
                assert(s@.subrange(start as int, i + 1) =~= Seq::<char>::empty());
                assert(spec_split_lines(s@.subrange(0, i + 1)) == spec_split_lines(
                    s@.subrange(0, i as int),
                ).push(Seq::<char>::empty()));
            }
        } else {
            proof {
                let prev = spec_split_lines(s@.subrange(0, i as int));
                assert(prev.drop_last() =~= r0);
                assert(prev.last() == cur0);
                assert(s@.subrange(start as int, i + 1) =~= cur0.push(s@[i as int]));
                assert(spec_split_lines(s@.subrange(0, i + 1)) == r0.push(
                    cur0.push(s@[i as int]),
                ));
            }
        }
        i += 1;
    }
    let ghost r0 = r.deep_view();
    let line = s.substring_char(start, n).to_owned();
    r.push(line);
    proof {
        assert(s@.subrange(0, n as int) =~= s@);
        assert(r.deep_view() =~= r0.push(s@.subrange(start as int, n as int)));
    }
    r
}

/// Joins `lines` with the `'\n'` separator between consecutive lines.
pub fn join_lines(lines: &Vec<String>) -> (r: String)
    ensures
        r@ == spec_join_lines(lines.deep_view()),
{
    let mut r = String::new();
    let mut i: usize = 0;
    proof {
        reveal_strlit("\n");
        assert(lines.deep_view().subrange(0, 0) =~= Seq::<Seq<char>>::empty());
    }
    while i < lines.len()
        invariant
            i <= lines.len(),
            r@ == spec_join_lines(lines.deep_view().subrange(0, i as int)),
        decreases lines.len() - i,
    {
        let ghost dv = lines.deep_view();
        proof {
            reveal_strlit("\n");
            assert("\n"@ =~= seq!['\n']);
            assert(dv.subrange(0, i + 1).drop_last() =~= dv.subrange(0, i as int));
            assert(dv.subrange(0, i + 1).last() == dv[i as int]);
        }
        if i > 0 {
            r.append("\n");
        }
        r.append(lines[i].as_str());
        proof {
            if i == 0 {
                assert(dv.subrange(0, 1)[0] == dv[0]);
                assert(r@ =~= spec_join_lines(dv.subrange(0, i + 1)));
            } else {
                assert(spec_join_lines(dv.subrange(0, i + 1)) == spec_join_lines(
                    dv.subrange(0, i as int),
                ) + seq!['\n'] + dv[i as int]);
                assert(r@ =~= spec_join_lines(dv.subrange(0, i + 1)));
            }
        }
        i += 1;
    }
    proof {
        assert(lines.deep_view().subrange(0, lines.len() as int) =~= lines.deep_view());
    }
    r
}

} // verus!
