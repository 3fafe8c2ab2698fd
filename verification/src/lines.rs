//! Newline-delimited text: splitting a file into lines without their
//! terminators, and rendering lines back with a single `\n` after each,
//! which normalises the trailing newline of a rewritten file.

use vstd::prelude::*;
use crate::patch::NEWLINE;

verus! {

/// The views of a vector of byte lines.
pub open spec fn line_views(ls: Seq<Vec<u8>>) -> Seq<Seq<u8>> {
    ls.map_values(|l: Vec<u8>| l@)
}

/// Index of the first newline byte at or after `i` (or `s.len()` if none).
pub open spec fn find_nl(s: Seq<u8>, i: int) -> int
    decreases s.len() - i,
{
    if 0 <= i && i < s.len() {
        if s[i] == NEWLINE {
            i
        } else {
            find_nl(s, i + 1)
        }
    } else {
        s.len() as int
    }
}

pub proof fn lemma_find_nl_bounds(s: Seq<u8>, i: int)
    requires
        0 <= i <= s.len(),
    ensures
        i <= find_nl(s, i) <= s.len(),
        find_nl(s, i) < s.len() ==> s[find_nl(s, i)] == NEWLINE,
        forall|k: int| i <= k < find_nl(s, i) ==> s[k] != NEWLINE,
    decreases s.len() - i,
{
    if i < s.len() && s[i] != NEWLINE {
        lemma_find_nl_bounds(s, i + 1);
    }
}

/// `find_nl` is determined by the first newline position.
pub proof fn lemma_find_nl_at(s: Seq<u8>, m: int)
    requires
        0 <= m <= s.len(),
        forall|k: int| 0 <= k < m ==> s[k] != NEWLINE,
        m < s.len() ==> s[m] == NEWLINE,
    ensures
        find_nl(s, 0) == if m < s.len() { m } else { s.len() as int },
    decreases m,
{
    if m > 0 {
        assert(find_nl(s, 0) == find_nl(s, 1)) by {
            assert(s[0] != NEWLINE);
        }
        lemma_find_nl_shift(s, 0, m);
    }
}

/// Helper: walking `find_nl` forward over non-newline bytes.
proof fn lemma_find_nl_shift(s: Seq<u8>, i: int, m: int)
    requires
        0 <= i <= m <= s.len(),
        forall|k: int| i <= k < m ==> s[k] != NEWLINE,
        m < s.len() ==> s[m] == NEWLINE,
    ensures
        find_nl(s, i) == if m < s.len() { m } else { s.len() as int },
    decreases m - i,
{
    if i < m {
        lemma_find_nl_shift(s, i + 1, m);
    }
}

/// The lines of a file: split at `\n`; a trailing newline yields no final
/// empty line, and an empty file has no lines.
pub open spec fn split_lines_spec(s: Seq<u8>) -> Seq<Seq<u8>>
    decreases s.len(),
{
    if s.len() == 0 {
        Seq::empty()
    } else {
        let j = find_nl(s, 0);
        if 0 <= j && j < s.len() {
            seq![s.take(j)] + split_lines_spec(s.skip(j + 1))
        } else {
            seq![s]
        }
    }
}

/// Every line that splitting produces is free of newline bytes.
pub proof fn lemma_split_no_nl(s: Seq<u8>)
    ensures
        forall|i: int, k: int|
            0 <= i < split_lines_spec(s).len() && 0 <= k < split_lines_spec(s)[i].len()
                ==> #[trigger] split_lines_spec(s)[i][k] != NEWLINE,
    decreases s.len(),
{
    if s.len() > 0 {
        lemma_find_nl_bounds(s, 0);
        let j = find_nl(s, 0);
        if j < s.len() {
            lemma_split_no_nl(s.skip(j + 1));
            assert forall|i: int, k: int|
                0 <= i < split_lines_spec(s).len() && 0 <= k < split_lines_spec(s)[i].len()
                    implies #[trigger] split_lines_spec(s)[i][k] != NEWLINE by {
                if i == 0 {
                    assert(split_lines_spec(s)[0] == s.take(j));
                    assert(s.take(j)[k] == s[k]);
                } else {
                    assert(split_lines_spec(s)[i] == split_lines_spec(s.skip(j + 1))[i - 1]);
                }
            }
        }
    }
}

/// A nonempty file that does not end in a newline splits into a nonempty
/// sequence of lines whose last line is nonempty.
pub proof fn lemma_split_last_nonempty(s: Seq<u8>)
    requires
        s.len() > 0,
        s.last() != NEWLINE,
    ensures
        split_lines_spec(s).len() > 0,
        split_lines_spec(s).last().len() > 0,
    decreases s.len(),
{
    lemma_find_nl_bounds(s, 0);
    let j = find_nl(s, 0);
    if j < s.len() {
        let rest = s.skip(j + 1);
        assert(rest.len() > 0) by {
            assert(s[j] == NEWLINE);
            assert(s[s.len() - 1] != NEWLINE);
        }
        assert(rest.last() == s.last());
        lemma_split_last_nonempty(rest);
        assert(split_lines_spec(s).last() == split_lines_spec(rest).last());
    }
}

/// The rendered form of a sequence of lines: each line followed by `\n`.
pub open spec fn render(ls: Seq<Seq<u8>>) -> Seq<u8>
    decreases ls.len(),
{
    if ls.len() == 0 {
        Seq::empty()
    } else {
        ls[0] + seq![NEWLINE] + render(ls.skip(1))
    }
}

pub proof fn lemma_render_push(ls: Seq<Seq<u8>>, l: Seq<u8>)
    ensures
        render(ls.push(l)) == render(ls) + l + seq![NEWLINE],
    decreases ls.len(),
{
    let a = ls.push(l);
    assert(a.len() == ls.len() + 1);
    if ls.len() == 0 {
        assert(a[0] == l);
        assert(a.skip(1) =~= Seq::<Seq<u8>>::empty());
        assert(render(a.skip(1)) == Seq::<u8>::empty());
        assert(render(a) == a[0] + seq![NEWLINE] + render(a.skip(1)));
        assert(render(ls) == Seq::<u8>::empty());
        assert(render(a) =~= render(ls) + l + seq![NEWLINE]);
    } else {
        assert(a[0] == ls[0]);
        assert(a.skip(1) =~= ls.skip(1).push(l));
        lemma_render_push(ls.skip(1), l);
        assert(render(a) == a[0] + seq![NEWLINE] + render(a.skip(1)));
        assert(render(ls) == ls[0] + seq![NEWLINE] + render(ls.skip(1)));
        assert(render(a) =~= render(ls) + l + seq![NEWLINE]);
    }
}

/// A rendered file whose last line is nonempty and newline-free ends with
/// exactly one newline byte.
pub proof fn lemma_render_last(ls: Seq<Seq<u8>>)
    requires
        ls.len() > 0,
        ls.last().len() > 0,
        forall|k: int| 0 <= k < ls.last().len() ==> ls.last()[k] != NEWLINE,
    ensures
        render(ls).len() >= 2,
        render(ls).last() == NEWLINE,
        render(ls)[render(ls).len() - 2] != NEWLINE,
    decreases ls.len(),
{
    let r = render(ls);
    if ls.len() == 1 {
        assert(ls.skip(1) =~= Seq::<Seq<u8>>::empty());
        assert(render(ls.skip(1)) == Seq::<u8>::empty());
        assert(r =~= ls[0] + seq![NEWLINE]);
        assert(ls[0] == ls.last());
        assert(r[r.len() - 2] == ls.last()[ls.last().len() - 1]);
    } else {
        let rest = render(ls.skip(1));
        assert(ls.skip(1).last() == ls.last());
        lemma_render_last(ls.skip(1));
        assert(r == ls[0] + seq![NEWLINE] + rest);
        assert(r.len() == ls[0].len() + 1 + rest.len());
        assert(r[r.len() - 1] == rest[rest.len() - 1]);
        assert(r[r.len() - 2] == rest[rest.len() - 2]);
    }
}

/// Splitting a rendered file recovers the lines, as long as no line holds a
/// newline byte of its own.
pub proof fn lemma_split_render(ls: Seq<Seq<u8>>)
    requires
        forall|i: int, k: int| 0 <= i < ls.len() && 0 <= k < ls[i].len()
            ==> #[trigger] ls[i][k] != NEWLINE,
    ensures
        split_lines_spec(render(ls)) == ls,
    decreases ls.len(),
{
    if ls.len() == 0 {
        assert(split_lines_spec(render(ls)) =~= ls);
    } else {
        let s = render(ls);
        let head = ls[0];
        let rest = render(ls.skip(1));
        assert(s == head + seq![NEWLINE] + rest);
        assert(s.len() == head.len() + 1 + rest.len());
        assert forall|k: int| 0 <= k < head.len() implies s[k] != NEWLINE by {
            assert(s[k] == ls[0][k]);
        }
        assert(s[head.len() as int] == NEWLINE);
        lemma_find_nl_at(s, head.len() as int);
        let j = find_nl(s, 0);
        assert(j == head.len());
        assert(s.take(j) =~= head);
        assert(s.skip(j + 1) =~= rest);
        assert forall|i: int, k: int|
            0 <= i < ls.skip(1).len() && 0 <= k < ls.skip(1)[i].len()
                implies #[trigger] ls.skip(1)[i][k] != NEWLINE by {
            assert(ls.skip(1)[i] == ls[i + 1]);
        }
        lemma_split_render(ls.skip(1));
        assert(split_lines_spec(s) =~= ls);
    }
}

/// Splits a file into its lines.
pub fn split_lines(content: &Vec<u8>) -> (r: Vec<Vec<u8>>)
    ensures
        line_views(r@) == split_lines_spec(content@),
{
    let mut acc: Vec<Vec<u8>> = Vec::new();
    let mut cur: Vec<u8> = Vec::new();
    let mut i: usize = 0;
    proof {
        assert(cur@ + content@.skip(0) =~= content@);
        assert(line_views(acc@) =~= Seq::<Seq<u8>>::empty());
        assert(Seq::<Seq<u8>>::empty() + split_lines_spec(content@) =~= split_lines_spec(content@));
    }
    while i < content.len()
        invariant
            i <= content.len(),
            forall|k: int| 0 <= k < cur@.len() ==> cur@[k] != NEWLINE,
            split_lines_spec(content@) == line_views(acc@) + split_lines_spec(cur@ + content@.skip(i as int)),
        decreases content.len() - i,
    {
        let b = content[i];
        if b == NEWLINE {
            proof {
                let s = cur@ + content@.skip(i as int);
                assert(s.len() > 0);
                assert(s[cur@.len() as int] == NEWLINE) by {
                    assert(content@.skip(i as int)[0] == content@[i as int]);
                }
                assert forall|k: int| 0 <= k < cur@.len() implies s[k] != NEWLINE by {
                    assert(s[k] == cur@[k]);
                }
                lemma_find_nl_at(s, cur@.len() as int);
                assert(s.take(cur@.len() as int) =~= cur@);
                assert(s.skip(cur@.len() as int + 1) =~= content@.skip(i + 1));
                assert(split_lines_spec(s) == seq![cur@] + split_lines_spec(content@.skip(i + 1)));
                assert(line_views(acc@.push(cur)) =~= line_views(acc@).push(cur@));
                assert(line_views(acc@) + (seq![cur@] + split_lines_spec(content@.skip(i + 1)))
                    =~= line_views(acc@).push(cur@) + split_lines_spec(content@.skip(i + 1)));
            }
            acc.push(cur);
            cur = Vec::new();
            proof {
                assert(cur@ + content@.skip(i + 1) =~= content@.skip(i + 1));
            }
        } else {
            proof {
                assert(cur@ + content@.skip(i as int) =~= cur@.push(b) + content@.skip(i + 1)) by {
                    assert(content@.skip(i as int)[0] == content@[i as int]);
                    assert(content@.skip(i as int).skip(1) =~= content@.skip(i + 1));
                }
            }
            cur.push(b);
        }
        i += 1;
    }
    proof {
        assert(cur@ + content@.skip(content@.len() as int) =~= cur@);
        if cur@.len() == 0 {
            assert(split_lines_spec(cur@) =~= Seq::<Seq<u8>>::empty());
            assert(line_views(acc@) + Seq::<Seq<u8>>::empty() =~= line_views(acc@));
        } else {
            lemma_find_nl_at(cur@, cur@.len() as int);
            assert(split_lines_spec(cur@) == seq![cur@]);
            assert(line_views(acc@) + seq![cur@] =~= line_views(acc@.push(cur)));
        }
    }
    if cur.len() > 0 {
        acc.push(cur);
    }
    acc
}

/// Renders lines back into file bytes, one `\n` after every line.
pub fn render_lines(lines: &Vec<Vec<u8>>) -> (r: Vec<u8>)
    ensures
        r@ == render(line_views(lines@)),
{
    let mut out: Vec<u8> = Vec::new();
    let mut i: usize = 0;
    proof {
        assert(line_views(lines@).take(0) =~= Seq::<Seq<u8>>::empty());
    }
    while i < lines.len()
        invariant
            i <= lines.len(),
            out@ == render(line_views(lines@).take(i as int)),
        decreases lines.len() - i,
    {
        push_all_lines_step(&mut out, &lines[i]);
        proof {
            let vs = line_views(lines@);
            lemma_render_push(vs.take(i as int), vs[i as int]);
            assert(vs.take(i + 1) =~= vs.take(i as int).push(vs[i as int]));
        }
        i += 1;
    }
    proof {
        assert(line_views(lines@).take(lines@.len() as int) =~= line_views(lines@));
    }
    out
}

/// Appends one line and its newline terminator.
fn push_all_lines_step(out: &mut Vec<u8>, line: &Vec<u8>)
    ensures
        final(out)@ == old(out)@ + line@ + seq![NEWLINE],
{
    crate::text::push_all(out, line);
    out.push(NEWLINE);
}

} // verus!
