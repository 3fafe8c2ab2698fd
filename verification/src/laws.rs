//! The laws of the patcher, proved once and for all: selectivity (untouched
//! lines are preserved verbatim), idempotence of a whole patch run, and the
//! trailing-newline normalisation of a rewritten file.

use vstd::prelude::*;
use crate::text::{matches_at, occurs, replace_all, lemma_matches_at_concat_left,
    lemma_matches_at_concat_right, lemma_not_occurs_skip, lemma_not_occurs_take, lemma_replace_absent,
    lemma_replace_no_byte, lemma_replace_nonempty};
use crate::patch::{QUOTE, NEWLINE, quoted, lemma_quoted_index, is_candidate, patch_line_spec,
    patch_lines_spec, any_line_changed, content_changes, patched_content};
use crate::lines::{split_lines_spec, render, lemma_split_no_nl, lemma_split_last_nonempty,
    lemma_split_render, lemma_render_last, find_nl, lemma_find_nl_bounds};

verus! {

/// A version string fit for quoted substitution: nonempty and quote-free.
pub open spec fn plain_version(v: Seq<u8>) -> bool {
    v.len() > 0 && forall|i: int| 0 <= i < v.len() ==> v[i] != QUOTE
}

/// Two overlapping quoted occurrences of one version share a quote byte:
/// `"v"v"`. Text free of this shape loses every occurrence in one pass.
pub open spec fn chained_versions(old_v: Seq<u8>) -> Seq<u8> {
    quoted(old_v) + old_v + seq![QUOTE]
}

/// The quoted old version never occurs inside the quoted new one.
proof fn lemma_from_not_in_to(old_v: Seq<u8>, new_v: Seq<u8>)
    requires
        plain_version(old_v),
        plain_version(new_v),
        old_v != new_v,
    ensures
        !occurs(quoted(new_v), quoted(old_v)),
{
    let from = quoted(old_v);
    let to = quoted(new_v);
    lemma_quoted_index(old_v);
    lemma_quoted_index(new_v);
    assert forall|q: int| !matches_at(to, from, q) by {
        if matches_at(to, from, q) {
            assert(to.subrange(q, q + from.len())[0] == from[0]);
            assert(to[q] == QUOTE);
            if q == to.len() - 1 {
                assert(from.len() <= 1);
                assert(false);
            } else {
                assert(q == 0);
                assert(to.subrange(q, q + from.len())[from.len() - 1] == from[from.len() - 1]);
                assert(to[from.len() - 1] == QUOTE);
                if from.len() == to.len() {
                    assert forall|j: int| 0 <= j < old_v.len() implies old_v[j] == new_v[j] by {
                        assert(to.subrange(0, from.len() as int)[j + 1] == from[j + 1]);
                    }
                    assert(old_v =~= new_v);
                    assert(false);
                } else {
                    assert(from.len() < to.len());
                    assert(1 <= from.len() - 1 <= new_v.len());
                    assert(to[from.len() - 1] == new_v[from.len() - 2]);
                    assert(false);
                }
            }
        }
    }
}

/// If the suffix `old[k..] + "` of the old pattern is a prefix of a
/// replacement's result, it already was a prefix of the original text.
proof fn lemma_prefix_reflects(s: Seq<u8>, old_v: Seq<u8>, new_v: Seq<u8>, k: int)
    requires
        plain_version(old_v),
        plain_version(new_v),
        0 <= k <= old_v.len(),
        matches_at(replace_all(s, quoted(old_v), quoted(new_v)), old_v.skip(k) + seq![QUOTE], 0),
    ensures
        matches_at(s, old_v.skip(k) + seq![QUOTE], 0),
    decreases s.len(),
{
    let from = quoted(old_v);
    let to = quoted(new_v);
    let w = old_v.skip(k) + seq![QUOTE];
    let r = replace_all(s, from, to);
    lemma_quoted_index(old_v);
    lemma_quoted_index(new_v);
    assert(w.len() == old_v.len() - k + 1);
    assert(r.subrange(0, w.len() as int) == w);
    assert(w[0] == r.subrange(0, w.len() as int)[0]);
    assert(w[0] == r[0]);
    if matches_at(s, from, 0) {
        let r2 = replace_all(s.skip(from.len() as int), from, to);
        assert(r == to + r2);
        assert(r[0] == to[0]);
        if k < old_v.len() {
            assert(w[0] == old_v.skip(k)[0]);
            assert(w[0] == old_v[k]);
            assert(false);
        } else {
            assert(w.len() == 1);
            assert(s.subrange(0, from.len() as int) == from);
            assert(s[0] == from[0]);
            assert(s.take(1) =~= w);
        }
    } else if s.len() == 0 {
        assert(r.len() == 0);
        assert(false);
    } else {
        let r2 = replace_all(s.skip(1), from, to);
        assert(r == seq![s[0]] + r2);
        assert(r[0] == s[0]);
        if k == old_v.len() {
            assert(w.len() == 1);
            assert(s.take(1) =~= w);
        } else {
            assert(matches_at(r2, old_v.skip(k + 1) + seq![QUOTE], 0)) by {
                let w2 = old_v.skip(k + 1) + seq![QUOTE];
                assert(w2.len() == w.len() - 1);
                assert forall|j: int| 0 <= j < w2.len() implies r2[j] == w2[j] by {
                    assert(r[j + 1] == r2[j]);
                    assert(r.subrange(0, w.len() as int)[j + 1] == r[j + 1]);
                    assert(w[j + 1] == w2[j]) by {
                        if j + 1 < old_v.skip(k).len() {
                            assert(w[j + 1] == old_v.skip(k)[j + 1]);
                            assert(w2[j] == old_v.skip(k + 1)[j]);
                            assert(old_v.skip(k)[j + 1] == old_v[k + j + 1]);
                            assert(old_v.skip(k + 1)[j] == old_v[k + j + 1]);
                        }
                    }
                }
                assert(r2.subrange(0, w2.len() as int) =~= w2);
            }
            lemma_prefix_reflects(s.skip(1), old_v, new_v, k + 1);
            assert(s.take(w.len() as int) =~= w) by {
                let w2 = old_v.skip(k + 1) + seq![QUOTE];
                assert(s.skip(1).subrange(0, w2.len() as int) == w2);
                assert forall|j: int| 0 <= j < w.len() implies s.take(w.len() as int)[j] == w[j] by {
                    if j == 0 {
                        assert(w[0] == old_v.skip(k)[0]);
                        assert(w[0] == old_v[k]);
                        assert(r[0] == w[0]);
                    } else {
                        assert(s[j] == s.skip(1)[j - 1]);
                        assert(s.skip(1).subrange(0, w2.len() as int)[j - 1] == s.skip(1)[j - 1]);
                        assert(w2[j - 1] == w[j]) by {
                            if j < old_v.skip(k).len() {
                                assert(w[j] == old_v[k + j]);
                                assert(w2[j - 1] == old_v.skip(k + 1)[j - 1]);
                                assert(old_v.skip(k + 1)[j - 1] == old_v[k + j]);
                            }
                        }
                    }
                }
            }
        }
    }
}

/// After one replacement pass, no occurrence of the quoted old version is
/// left, provided the text holds no chained overlap of it.
proof fn lemma_replace_removes(s: Seq<u8>, old_v: Seq<u8>, new_v: Seq<u8>)
    requires
        plain_version(old_v),
        plain_version(new_v),
        old_v != new_v,
        !occurs(s, chained_versions(old_v)),
    ensures
        !occurs(replace_all(s, quoted(old_v), quoted(new_v)), quoted(old_v)),
    decreases s.len(),
{
    let from = quoted(old_v);
    let to = quoted(new_v);
    let r = replace_all(s, from, to);
    let chain = chained_versions(old_v);
    lemma_quoted_index(old_v);
    lemma_quoted_index(new_v);
    lemma_from_not_in_to(old_v, new_v);
    if matches_at(s, from, 0) {
        let s2 = s.skip(from.len() as int);
        let r2 = replace_all(s2, from, to);
        assert(r == to + r2);
        lemma_not_occurs_skip(s, chain, from.len() as int);
        lemma_replace_removes(s2, old_v, new_v);
        assert forall|q: int| !matches_at(r, from, q) by {
            if matches_at(r, from, q) {
                if q + from.len() <= to.len() {
                    lemma_matches_at_concat_left(to, r2, from, q);
                } else if q >= to.len() {
                    lemma_matches_at_concat_right(to, r2, from, q);
                } else {
                    assert(r.subrange(q, q + from.len())[0] == from[0]);
                    assert(r[q] == from[0]);
                    assert(r[q] == to[q]);
                    assert(to[q] == QUOTE);
                    if q == 0 {
                        assert(from.len() > to.len());
                        assert(r.subrange(q, q + from.len())[to.len() - 1] == from[to.len() - 1]);
                        assert(r[to.len() - 1] == to[to.len() - 1]);
                        assert(from[to.len() - 1] == QUOTE);
                        assert(1 <= to.len() - 1 <= old_v.len());
                        assert(from[to.len() - 1] == old_v[to.len() - 2]);
                        assert(false);
                    } else {
                        assert(q == to.len() - 1);
                        assert(matches_at(r2, old_v + seq![QUOTE], 0)) by {
                            let w0 = old_v + seq![QUOTE];
                            assert forall|j: int| 0 <= j < w0.len() implies r2[j] == w0[j] by {
                                assert(r.subrange(q, q + from.len())[j + 1] == from[j + 1]);
                                assert(r[q + j + 1] == from[j + 1]);
                                assert(r[to.len() + j] == r2[j]);
                                assert(from[j + 1] == w0[j]) by {
                                    if j < old_v.len() {
                                        assert(from[j + 1] == old_v[j]);
                                    }
                                }
                            }
                            assert(r2.subrange(0, w0.len() as int) =~= w0);
                        }
                        assert(old_v + seq![QUOTE] =~= old_v.skip(0) + seq![QUOTE]);
                        lemma_prefix_reflects(s2, old_v, new_v, 0);
                        assert(matches_at(s, chain, 0)) by {
                            let w0 = old_v.skip(0) + seq![QUOTE];
                            assert(s2.subrange(0, w0.len() as int) == w0);
                            assert(chain.len() == from.len() + old_v.len() + 1);
                            assert(s.subrange(0, from.len() as int) == from);
                            assert forall|j: int| 0 <= j < chain.len() implies s[j] == chain[j] by {
                                if j < from.len() {
                                    assert(s.subrange(0, from.len() as int)[j] == s[j]);
                                    assert(chain[j] == from[j]);
                                } else {
                                    assert(s[j] == s2[j - from.len()]);
                                    assert(s2.subrange(0, w0.len() as int)[j - from.len()] == s2[j - from.len()]);
                                    assert(chain[j] == (old_v + seq![QUOTE])[j - from.len()]) by {
                                        assert(chain == from + (old_v + seq![QUOTE])) by {
                                            assert(from + (old_v + seq![QUOTE]) =~= chain);
                                        }
                                    }
                                    assert(w0[j - from.len()] == (old_v + seq![QUOTE])[j - from.len()]) by {
                                        assert(w0 =~= old_v + seq![QUOTE]);
                                    }
                                }
                            }
                            assert(s.subrange(0, chain.len() as int) =~= chain);
                        }
                        assert(false);
                    }
                }
            }
        }
    } else if s.len() == 0 {
        assert(r.len() == 0);
    } else {
        let s2 = s.skip(1);
        let r2 = replace_all(s2, from, to);
        assert(r == seq![s[0]] + r2);
        lemma_not_occurs_skip(s, chain, 1);
        lemma_replace_removes(s2, old_v, new_v);
        assert forall|q: int| !matches_at(r, from, q) by {
            if matches_at(r, from, q) {
                if q >= 1 {
                    lemma_matches_at_concat_right(seq![s[0]], r2, from, q);
                } else {
                    assert(q == 0);
                    assert(r.subrange(0, from.len() as int)[0] == from[0]);
                    assert(r[0] == from[0]);
                    assert(r[0] == s[0]);
                    assert(matches_at(r2, old_v + seq![QUOTE], 0)) by {
                        let w0 = old_v + seq![QUOTE];
                        assert forall|j: int| 0 <= j < w0.len() implies r2[j] == w0[j] by {
                            assert(r.subrange(0, from.len() as int)[j + 1] == from[j + 1]);
                            assert(r[j + 1] == from[j + 1]);
                            assert(r[j + 1] == r2[j]);
                            assert(from[j + 1] == w0[j]) by {
                                if j < old_v.len() {
                                    assert(from[j + 1] == old_v[j]);
                                }
                            }
                        }
                        assert(r2.subrange(0, w0.len() as int) =~= w0);
                    }
                    assert(old_v + seq![QUOTE] =~= old_v.skip(0) + seq![QUOTE]);
                    lemma_prefix_reflects(s2, old_v, new_v, 0);
                    assert(matches_at(s, from, 0)) by {
                        let w0 = old_v.skip(0) + seq![QUOTE];
                        assert(s2.subrange(0, w0.len() as int) == w0);
                        assert forall|j: int| 0 <= j < from.len() implies s[j] == from[j] by {
                            if j >= 1 {
                                assert(s[j] == s2[j - 1]);
                                assert(s2.subrange(0, w0.len() as int)[j - 1] == s2[j - 1]);
                                assert(w0[j - 1] == from[j]) by {
                                    if j - 1 < old_v.len() {
                                        assert(w0[j - 1] == old_v[j - 1]);
                                        assert(from[j] == old_v[j - 1]);
                                    }
                                }
                            }
                        }
                        assert(s.subrange(0, from.len() as int) =~= from);
                    }
                    assert(false);
                }
            }
        }
    }
}

/// Patching one line twice is patching it once.
proof fn lemma_patch_line_idempotent(line: Seq<u8>, pkg: Seq<u8>, old_v: Seq<u8>, new_v: Seq<u8>)
    requires
        plain_version(old_v),
        plain_version(new_v),
        old_v != new_v,
        !occurs(line, chained_versions(old_v)),
    ensures
        patch_line_spec(patch_line_spec(line, pkg, old_v, new_v), pkg, old_v, new_v)
            == patch_line_spec(line, pkg, old_v, new_v),
{
    lemma_quoted_index(old_v);
    if is_candidate(line, pkg) {
        let l2 = replace_all(line, quoted(old_v), quoted(new_v));
        lemma_replace_removes(line, old_v, new_v);
        if is_candidate(l2, pkg) {
            lemma_replace_absent(l2, quoted(old_v), quoted(new_v));
        }
    }
}

/// Nothing occurs in any line of a split that did not occur in the file.
proof fn lemma_split_not_occurs(s: Seq<u8>, p: Seq<u8>)
    requires
        !occurs(s, p),
    ensures
        forall|i: int| 0 <= i < split_lines_spec(s).len()
            ==> !occurs(#[trigger] split_lines_spec(s)[i], p),
    decreases s.len(),
{
    if s.len() > 0 {
        lemma_find_nl_bounds(s, 0);
        let j = find_nl(s, 0);
        if j < s.len() {
            lemma_not_occurs_take(s, p, j);
            lemma_not_occurs_skip(s, p, j + 1);
            lemma_split_not_occurs(s.skip(j + 1), p);
            assert forall|i: int| 0 <= i < split_lines_spec(s).len()
                implies !occurs(#[trigger] split_lines_spec(s)[i], p) by {
                if i == 0 {
                    assert(split_lines_spec(s)[0] == s.take(j));
                } else {
                    assert(split_lines_spec(s)[i] == split_lines_spec(s.skip(j + 1))[i - 1]);
                }
            }
        }
    }
}

/// Selectivity: a patch run preserves, byte for byte and in place, every
/// line that matches neither recognition pattern.
pub proof fn lemma_selectivity(ls: Seq<Seq<u8>>, pkg: Seq<u8>, old_v: Seq<u8>, new_v: Seq<u8>)
    ensures
        patch_lines_spec(ls, pkg, old_v, new_v).len() == ls.len(),
        forall|i: int| 0 <= i < ls.len() && !is_candidate(#[trigger] ls[i], pkg)
            ==> patch_lines_spec(ls, pkg, old_v, new_v)[i] == ls[i],
{
}

/// Idempotence: rewriting an already rewritten file changes nothing — the
/// second run finds no quoted old version left on any candidate line, as
/// long as the file held no chained overlap `"old"old"` of the old version
/// and both versions are nonempty, quote-free and (for the new one)
/// newline-free.
pub proof fn lemma_patch_idempotent(content: Seq<u8>, pkg: Seq<u8>, old_v: Seq<u8>, new_v: Seq<u8>)
    requires
        plain_version(old_v),
        plain_version(new_v),
        old_v != new_v,
        forall|i: int| 0 <= i < new_v.len() ==> new_v[i] != NEWLINE,
        !occurs(content, chained_versions(old_v)),
    ensures
        !content_changes(patched_content(content, pkg, old_v, new_v), pkg, old_v, new_v),
        patched_content(patched_content(content, pkg, old_v, new_v), pkg, old_v, new_v)
            == patched_content(content, pkg, old_v, new_v),
{
    let ls = split_lines_spec(content);
    let pl = patch_lines_spec(ls, pkg, old_v, new_v);
    let out = render(pl);
    lemma_quoted_index(old_v);
    lemma_quoted_index(new_v);
    lemma_split_no_nl(content);
    lemma_split_not_occurs(content, chained_versions(old_v));
    assert forall|i: int, k: int| 0 <= i < pl.len() && 0 <= k < pl[i].len()
        implies #[trigger] pl[i][k] != NEWLINE by {
        assert(pl[i] == patch_line_spec(ls[i], pkg, old_v, new_v));
        if is_candidate(ls[i], pkg) {
            lemma_replace_no_byte(ls[i], quoted(old_v), quoted(new_v), NEWLINE);
        }
    }
    lemma_split_render(pl);
    assert forall|i: int| 0 <= i < pl.len()
        implies patch_line_spec(#[trigger] pl[i], pkg, old_v, new_v) == pl[i] by {
        assert(pl[i] == patch_line_spec(ls[i], pkg, old_v, new_v));
        lemma_patch_line_idempotent(ls[i], pkg, old_v, new_v);
    }
    assert(!any_line_changed(pl, pkg, old_v, new_v));
    assert(patch_lines_spec(pl, pkg, old_v, new_v) =~= pl);
}

/// Trailing-newline normalisation: whatever the original file ended with,
/// the rewritten file ends with exactly one newline.
pub proof fn lemma_trailing_newline(content: Seq<u8>, pkg: Seq<u8>, old_v: Seq<u8>, new_v: Seq<u8>)
    requires
        content.len() > 0,
        content.last() != NEWLINE,
        forall|i: int| 0 <= i < new_v.len() ==> new_v[i] != NEWLINE,
    ensures
        patched_content(content, pkg, old_v, new_v).len() >= 2,
        patched_content(content, pkg, old_v, new_v).last() == NEWLINE,
        patched_content(content, pkg, old_v, new_v)[patched_content(content, pkg, old_v, new_v).len() - 2] != NEWLINE,
{
    let ls = split_lines_spec(content);
    let pl = patch_lines_spec(ls, pkg, old_v, new_v);
    lemma_quoted_index(new_v);
    lemma_split_no_nl(content);
    lemma_split_last_nonempty(content);
    let last = ls.len() - 1;
    assert(pl[last] == patch_line_spec(ls[last], pkg, old_v, new_v));
    assert(pl.last() == pl[last]);
    assert(pl.last().len() > 0 && forall|k: int| 0 <= k < pl.last().len() ==> pl.last()[k] != NEWLINE) by {
        if is_candidate(ls[last], pkg) {
            lemma_replace_no_byte(ls[last], quoted(old_v), quoted(new_v), NEWLINE);
            lemma_replace_nonempty(ls[last], quoted(old_v), quoted(new_v));
        }
    }
    lemma_render_last(pl);
}

} // verus!
