//! Byte-sequence primitives: substring matching and literal replacement.

use vstd::prelude::*;

verus! {

/// True when `p` occurs in `s` starting at index `i`.
pub open spec fn matches_at(s: Seq<u8>, p: Seq<u8>, i: int) -> bool {
    0 <= i && i + p.len() <= s.len() && s.subrange(i, i + p.len()) == p
}

/// True when `p` occurs somewhere in `s`.
pub open spec fn occurs(s: Seq<u8>, p: Seq<u8>) -> bool {
    exists|i: int| matches_at(s, p, i)
}

/// Leftmost, non-overlapping replacement of every occurrence of `from` by `to`.
pub open spec fn replace_all(s: Seq<u8>, from: Seq<u8>, to: Seq<u8>) -> Seq<u8>
    decreases s.len(),
{
    if from.len() == 0 {
        s
    } else if matches_at(s, from, 0) {
        to + replace_all(s.skip(from.len() as int), from, to)
    } else if s.len() == 0 {
        Seq::empty()
    } else {
        seq![s[0]] + replace_all(s.skip(1), from, to)
    }
}

/// An occurrence inside `s.skip(n)` is an occurrence inside `s`, shifted.
pub proof fn lemma_matches_at_skip(s: Seq<u8>, p: Seq<u8>, n: int, i: int)
    requires
        0 <= n <= s.len(),
    ensures
        matches_at(s.skip(n), p, i) == (0 <= i && matches_at(s, p, n + i)),
{
    if 0 <= i && i + p.len() <= s.skip(n).len() {
        assert(s.skip(n).subrange(i, i + p.len()) =~= s.subrange(n + i, n + i + p.len()));
    }
}

/// An occurrence inside `s.take(n)` is an occurrence inside `s` at the same place.
pub proof fn lemma_matches_at_take(s: Seq<u8>, p: Seq<u8>, n: int, i: int)
    requires
        0 <= n <= s.len(),
        matches_at(s.take(n), p, i),
    ensures
        matches_at(s, p, i),
{
    assert(s.take(n).subrange(i, i + p.len()) =~= s.subrange(i, i + p.len()));
}

/// Nothing occurs in a suffix that did not occur in the whole.
pub proof fn lemma_not_occurs_skip(s: Seq<u8>, p: Seq<u8>, n: int)
    requires
        0 <= n <= s.len(),
        !occurs(s, p),
    ensures
        !occurs(s.skip(n), p),
{
    assert forall|i: int| !matches_at(s.skip(n), p, i) by {
        lemma_matches_at_skip(s, p, n, i);
    }
}

/// Nothing occurs in a prefix that did not occur in the whole.
pub proof fn lemma_not_occurs_take(s: Seq<u8>, p: Seq<u8>, n: int)
    requires
        0 <= n <= s.len(),
        !occurs(s, p),
    ensures
        !occurs(s.take(n), p),
{
    assert forall|i: int| !matches_at(s.take(n), p, i) by {
        if matches_at(s.take(n), p, i) {
            lemma_matches_at_take(s, p, n, i);
        }
    }
}

/// An occurrence that lies within the left part of a concatenation.
pub proof fn lemma_matches_at_concat_left(a: Seq<u8>, b: Seq<u8>, p: Seq<u8>, q: int)
    requires
        0 <= q,
        q + p.len() <= a.len(),
    ensures
        matches_at(a + b, p, q) == matches_at(a, p, q),
{
    assert((a + b).subrange(q, q + p.len()) =~= a.subrange(q, q + p.len()));
}

/// An occurrence that lies within the right part of a concatenation.
pub proof fn lemma_matches_at_concat_right(a: Seq<u8>, b: Seq<u8>, p: Seq<u8>, q: int)
    requires
        a.len() <= q,
    ensures
        matches_at(a + b, p, q) == matches_at(b, p, q - a.len()),
{
    if q + p.len() <= a.len() + b.len() {
        assert((a + b).subrange(q, q + p.len()) =~= b.subrange(q - a.len(), q - a.len() + p.len()));
    }
}

/// Replacement is the identity on text where the needle never occurs.
pub proof fn lemma_replace_absent(s: Seq<u8>, from: Seq<u8>, to: Seq<u8>)
    requires
        from.len() > 0,
        !occurs(s, from),
    ensures
        replace_all(s, from, to) == s,
    decreases s.len(),
{
    assert(!matches_at(s, from, 0));
    if s.len() == 0 {
        assert(replace_all(s, from, to) =~= s);
    } else {
        lemma_not_occurs_skip(s, from, 1);
        lemma_replace_absent(s.skip(1), from, to);
        assert(seq![s[0]] + s.skip(1) =~= s);
    }
}

/// Replacement never introduces a byte that neither the text nor the
/// replacement holds.
pub proof fn lemma_replace_no_byte(s: Seq<u8>, from: Seq<u8>, to: Seq<u8>, b: u8)
    requires
        from.len() > 0,
        forall|i: int| 0 <= i < s.len() ==> s[i] != b,
        forall|i: int| 0 <= i < to.len() ==> to[i] != b,
    ensures
        forall|i: int| 0 <= i < replace_all(s, from, to).len() ==> replace_all(s, from, to)[i] != b,
    decreases s.len(),
{
    let r = replace_all(s, from, to);
    if matches_at(s, from, 0) {
        lemma_replace_no_byte(s.skip(from.len() as int), from, to, b);
        assert forall|i: int| 0 <= i < r.len() implies r[i] != b by {
            if i >= to.len() {
                assert(r[i] == replace_all(s.skip(from.len() as int), from, to)[i - to.len()]);
            }
        }
    } else if s.len() == 0 {
    } else {
        lemma_replace_no_byte(s.skip(1), from, to, b);
        assert forall|i: int| 0 <= i < r.len() implies r[i] != b by {
            if i == 0 {
                assert(r[0] == s[0]);
            } else {
                assert(r[i] == replace_all(s.skip(1), from, to)[i - 1]);
            }
        }
    }
}

/// Replacement keeps nonempty text nonempty when the replacement is nonempty.
pub proof fn lemma_replace_nonempty(s: Seq<u8>, from: Seq<u8>, to: Seq<u8>)
    requires
        from.len() > 0,
        to.len() > 0,
        s.len() > 0,
    ensures
        replace_all(s, from, to).len() > 0,
{
}

/// Compares `needle` against the bytes of `hay` starting at `at`.
pub fn match_at(hay: &Vec<u8>, needle: &Vec<u8>, at: usize) -> (r: bool)
    requires
        at <= hay.len(),
    ensures
        r == matches_at(hay@, needle@, at as int),
{
    if hay.len() - at < needle.len() {
        return false;
    }
    let mut j: usize = 0;
    while j < needle.len()
        invariant
            at + needle.len() <= hay.len(),
            j <= needle.len(),
            forall|k: int| 0 <= k < j ==> hay@[at + k] == needle@[k],
        decreases needle.len() - j,
    {
        if hay[at + j] != needle[j] {
            assert(!matches_at(hay@, needle@, at as int)) by {
                if matches_at(hay@, needle@, at as int) {
                    assert(hay@.subrange(at as int, at + needle@.len())[j as int] == needle@[j as int]);
                }
            }
            return false;
        }
        j += 1;
    }
    assert(hay@.subrange(at as int, at + needle@.len()) =~= needle@);
    true
}

/// Appends every byte of `src` to `dst`.
pub fn push_all(dst: &mut Vec<u8>, src: &Vec<u8>)
    ensures
        final(dst)@ == old(dst)@ + src@,
{
    let mut j: usize = 0;
    while j < src.len()
        invariant
            j <= src.len(),
            dst@ == old(dst)@ + src@.take(j as int),
        decreases src.len() - j,
    {
        dst.push(src[j]);
        assert(old(dst)@ + src@.take(j as int) + seq![src@[j as int]] =~= old(dst)@ + src@.take(j + 1));
        j += 1;
    }
    assert(old(dst)@ + src@.take(src@.len() as int) =~= old(dst)@ + src@);
}

/// Byte-for-byte equality of two buffers.
pub fn bytes_eq(a: &Vec<u8>, b: &Vec<u8>) -> (r: bool)
    ensures
        r == (a@ == b@),
{
    if a.len() != b.len() {
        return false;
    }
    let mut j: usize = 0;
    while j < a.len()
        invariant
            a.len() == b.len(),
            j <= a.len(),
            forall|k: int| 0 <= k < j ==> a@[k] == b@[k],
        decreases a.len() - j,
    {
        if a[j] != b[j] {
            return false;
        }
        j += 1;
    }
    assert(a@ =~= b@);
    true
}

/// Replaces, left to right and without overlap, every occurrence of `from` by `to`.
pub fn replace_all_bytes(line: &Vec<u8>, from: &Vec<u8>, to: &Vec<u8>) -> (r: Vec<u8>)
    requires
        from.len() > 0,
    ensures
        r@ == replace_all(line@, from@, to@),
{
    let mut out: Vec<u8> = Vec::new();
    let mut i: usize = 0;
    proof {
        assert(line@.skip(0) =~= line@);
        assert(Seq::<u8>::empty() + replace_all(line@, from@, to@) =~= replace_all(line@, from@, to@));
    }
    while i < line.len()
        invariant
            from.len() > 0,
            i <= line.len(),
            replace_all(line@, from@, to@) == out@ + replace_all(line@.skip(i as int), from@, to@),
        decreases line.len() - i,
    {
        if match_at(line, from, i) {
            proof {
                lemma_matches_at_skip(line@, from@, i as int, 0);
                assert(line@.skip(i as int).skip(from@.len() as int) =~= line@.skip(i + from@.len()));
                assert(out@ + (to@ + replace_all(line@.skip(i + from@.len()), from@, to@))
                    =~= (out@ + to@) + replace_all(line@.skip(i + from@.len()), from@, to@));
            }
            push_all(&mut out, to);
            i += from.len();
        } else {
            proof {
                lemma_matches_at_skip(line@, from@, i as int, 0);
                assert(line@.skip(i as int)[0] == line@[i as int]);
                assert(line@.skip(i as int).skip(1) =~= line@.skip(i + 1));
                assert(out@ + (seq![line@[i as int]] + replace_all(line@.skip(i + 1), from@, to@))
                    =~= out@.push(line@[i as int]) + replace_all(line@.skip(i + 1), from@, to@));
            }
            let b = line[i];
            out.push(b);
            i += 1;
        }
    }
    proof {
        assert(line@.skip(line@.len() as int) =~= Seq::<u8>::empty());
        assert(out@ + Seq::<u8>::empty() =~= out@);
    }
    out
}

} // verus!
