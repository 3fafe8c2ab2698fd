//! The manifest patcher: recognises dependency declaration lines and
//! substitutes the quoted old version for the quoted new one, line by line.
//!
//! A line is a candidate when it either starts (after optional blanks) with
//! the package name followed by optional blanks and `=`, or contains
//! `package`, optional blanks, `=`, optional blanks and the quoted package
//! name, as an aliased dependency declaration does.

use vstd::prelude::*;
use crate::text::{matches_at, replace_all, match_at, push_all, bytes_eq, replace_all_bytes};

verus! {

pub const QUOTE: u8 = 34;
pub const EQUALS: u8 = 61;
pub const SPACE: u8 = 32;
pub const TAB: u8 = 9;
pub const NEWLINE: u8 = 10;

/// A blank byte: space or tab.
pub open spec fn is_ws(b: u8) -> bool {
    b == SPACE || b == TAB
}

/// Index of the first non-blank byte at or after `i` (or `s.len()` if none).
pub open spec fn skip_ws(s: Seq<u8>, i: int) -> int
    decreases s.len() - i,
{
    if 0 <= i && i < s.len() && is_ws(s[i]) {
        skip_ws(s, i + 1)
    } else {
        i
    }
}

pub proof fn lemma_skip_ws_bounds(s: Seq<u8>, i: int)
    requires
        0 <= i <= s.len(),
    ensures
        i <= skip_ws(s, i) <= s.len(),
        skip_ws(s, i) < s.len() ==> !is_ws(s[skip_ws(s, i)]),
    decreases s.len() - i,
{
    if i < s.len() && is_ws(s[i]) {
        lemma_skip_ws_bounds(s, i + 1);
    }
}

/// The bytes of the keyword `package`.
pub open spec fn package_kw() -> Seq<u8> {
    seq![112u8, 97, 99, 107, 97, 103, 101]
}

/// The bytes of the manifest filename `Cargo.toml`.
pub open spec fn manifest_name() -> Seq<u8> {
    seq![67u8, 97, 114, 103, 111, 46, 116, 111, 109, 108]
}

/// `v` wrapped in double quotes.
pub open spec fn quoted(v: Seq<u8>) -> Seq<u8> {
    seq![QUOTE] + v + seq![QUOTE]
}

/// Where each byte of a quoted string sits.
pub proof fn lemma_quoted_index(v: Seq<u8>)
    ensures
        quoted(v).len() == v.len() + 2,
        quoted(v)[0] == QUOTE,
        quoted(v)[v.len() as int + 1] == QUOTE,
        forall|j: int| 1 <= j <= v.len() ==> quoted(v)[j] == v[j - 1],
{
    assert forall|j: int| 1 <= j <= v.len() implies quoted(v)[j] == v[j - 1] by {
        assert(quoted(v)[j] == (seq![QUOTE] + v)[j]);
    }
}

/// A direct declaration: optional blanks, the package name, optional blanks, `=`.
pub open spec fn direct_match(line: Seq<u8>, pkg: Seq<u8>) -> bool {
    let i = skip_ws(line, 0);
    matches_at(line, pkg, i) && {
        let j = skip_ws(line, i + pkg.len());
        j < line.len() && line[j] == EQUALS
    }
}

/// An aliased declaration at `at`: `package`, blanks, `=`, blanks, the quoted name.
pub open spec fn aliased_match_at(line: Seq<u8>, pkg: Seq<u8>, at: int) -> bool {
    matches_at(line, package_kw(), at) && {
        let i = skip_ws(line, at + package_kw().len());
        i < line.len() && line[i] == EQUALS && matches_at(line, quoted(pkg), skip_ws(line, i + 1))
    }
}

/// The aliased declaration pattern occurs somewhere in the line.
pub open spec fn aliased_match(line: Seq<u8>, pkg: Seq<u8>) -> bool {
    exists|at: int| aliased_match_at(line, pkg, at)
}

/// A line on which substitution is attempted.
pub open spec fn is_candidate(line: Seq<u8>, pkg: Seq<u8>) -> bool {
    direct_match(line, pkg) || aliased_match(line, pkg)
}

/// What one line becomes: candidates have every occurrence of the quoted old
/// version replaced by the quoted new one; every other line is untouched.
pub open spec fn patch_line_spec(line: Seq<u8>, pkg: Seq<u8>, old_v: Seq<u8>, new_v: Seq<u8>) -> Seq<u8> {
    if is_candidate(line, pkg) {
        replace_all(line, quoted(old_v), quoted(new_v))
    } else {
        line
    }
}

/// First non-blank position at or after `at`.
pub fn scan_ws(line: &Vec<u8>, at: usize) -> (r: usize)
    requires
        at <= line.len(),
    ensures
        r == skip_ws(line@, at as int),
        at <= r <= line.len(),
{
    let mut i: usize = at;
    while i < line.len() && (line[i] == SPACE || line[i] == TAB)
        invariant
            at <= i <= line.len(),
            skip_ws(line@, at as int) == skip_ws(line@, i as int),
        decreases line.len() - i,
    {
        i += 1;
    }
    i
}

/// Builds the keyword `package` as bytes.
fn package_keyword() -> (r: Vec<u8>)
    ensures
        r@ == package_kw(),
{
    let mut v: Vec<u8> = Vec::new();
    v.push(112);
    v.push(97);
    v.push(99);
    v.push(107);
    v.push(97);
    v.push(103);
    v.push(101);
    proof {
        assert(v@ =~= package_kw());
    }
    v
}

/// Builds the manifest filename `Cargo.toml` as bytes.
pub fn manifest_filename() -> (r: Vec<u8>)
    ensures
        r@ == manifest_name(),
{
    let mut v: Vec<u8> = Vec::new();
    v.push(67);
    v.push(97);
    v.push(114);
    v.push(103);
    v.push(111);
    v.push(46);
    v.push(116);
    v.push(111);
    v.push(109);
    v.push(108);
    proof {
        assert(v@ =~= manifest_name());
    }
    v
}

/// Wraps `v` in double quotes.
pub fn quote_wrap(v: &Vec<u8>) -> (r: Vec<u8>)
    ensures
        r@ == quoted(v@),
{
    let mut out: Vec<u8> = Vec::new();
    out.push(QUOTE);
    push_all(&mut out, v);
    out.push(QUOTE);
    proof {
        assert(out@ =~= quoted(v@));
    }
    out
}

/// Decides the direct recognition pattern.
pub fn direct_decl(line: &Vec<u8>, pkg: &Vec<u8>) -> (r: bool)
    ensures
        r == direct_match(line@, pkg@),
{
    let i = scan_ws(line, 0);
    if !match_at(line, pkg, i) {
        return false;
    }
    let j = scan_ws(line, i + pkg.len());
    j < line.len() && line[j] == EQUALS
}

/// Decides the aliased recognition pattern at one position.
fn aliased_at_exec(line: &Vec<u8>, kw: &Vec<u8>, qp: &Vec<u8>, pkg: Ghost<Seq<u8>>, at: usize) -> (r: bool)
    requires
        at <= line.len(),
        kw@ == package_kw(),
        qp@ == quoted(pkg@),
    ensures
        r == aliased_match_at(line@, pkg@, at as int),
{
    if !match_at(line, kw, at) {
        return false;
    }
    let i = scan_ws(line, at + kw.len());
    if i >= line.len() || line[i] != EQUALS {
        return false;
    }
    let j = scan_ws(line, i + 1);
    match_at(line, qp, j)
}

/// Decides whether the aliased pattern occurs anywhere in the line.
pub fn aliased_decl(line: &Vec<u8>, pkg: &Vec<u8>) -> (r: bool)
    ensures
        r == aliased_match(line@, pkg@),
{
    let kw = package_keyword();
    if line.len() < kw.len() {
        proof {
            assert forall|a: int| !aliased_match_at(line@, pkg@, a) by {
                assert(!matches_at(line@, package_kw(), a));
            }
        }
        return false;
    }
    let qp = quote_wrap(pkg);
    let last = line.len() - kw.len();
    let mut at: usize = 0;
    while at <= last
        invariant
            kw@ == package_kw(),
            qp@ == quoted(pkg@),
            line.len() >= package_kw().len(),
            last == line.len() - package_kw().len(),
            at <= last + 1,
            forall|a: int| 0 <= a < at ==> !aliased_match_at(line@, pkg@, a),
        decreases last + 1 - at,
    {
        if aliased_at_exec(line, &kw, &qp, Ghost(pkg@), at) {
            return true;
        }
        at += 1;
    }
    proof {
        assert forall|a: int| !aliased_match_at(line@, pkg@, a) by {
            if a < 0 || a > last {
                assert(!matches_at(line@, package_kw(), a));
            }
        }
    }
    false
}

/// Applies the substitution rule to one line.
pub fn patch_line(line: &Vec<u8>, pkg: &Vec<u8>, old_v: &Vec<u8>, new_v: &Vec<u8>) -> (r: Vec<u8>)
    ensures
        r@ == patch_line_spec(line@, pkg@, old_v@, new_v@),
{
    if direct_decl(line, pkg) || aliased_decl(line, pkg) {
        let from = quote_wrap(old_v);
        let to = quote_wrap(new_v);
        replace_all_bytes(line, &from, &to)
    } else {
        let mut copy: Vec<u8> = Vec::new();
        push_all(&mut copy, line);
        proof {
            assert(Seq::<u8>::empty() + line@ =~= line@);
        }
        copy
    }
}

/// What every line of a file becomes.
pub open spec fn patch_lines_spec(ls: Seq<Seq<u8>>, pkg: Seq<u8>, old_v: Seq<u8>, new_v: Seq<u8>) -> Seq<Seq<u8>> {
    ls.map_values(|l: Seq<u8>| patch_line_spec(l, pkg, old_v, new_v))
}

/// Whether patching changes at least one line.
pub open spec fn any_line_changed(ls: Seq<Seq<u8>>, pkg: Seq<u8>, old_v: Seq<u8>, new_v: Seq<u8>) -> bool {
    exists|i: int| 0 <= i < ls.len() && patch_line_spec(ls[i], pkg, old_v, new_v) != ls[i]
}

/// The outcome of patching one file's lines.
pub struct PatchOutcome {
    pub lines: Vec<Vec<u8>>,
    pub changed: bool,
}

/// Applies the substitution rule to every line and reports whether any
/// line actually changed.
pub fn patch_lines(lines: &Vec<Vec<u8>>, pkg: &Vec<u8>, old_v: &Vec<u8>, new_v: &Vec<u8>) -> (r: PatchOutcome)
    ensures
        crate::lines::line_views(r.lines@) == patch_lines_spec(crate::lines::line_views(lines@), pkg@, old_v@, new_v@),
        r.changed == any_line_changed(crate::lines::line_views(lines@), pkg@, old_v@, new_v@),
{
    let ghost vs = crate::lines::line_views(lines@);
    let mut out: Vec<Vec<u8>> = Vec::new();
    let mut changed = false;
    let mut i: usize = 0;
    while i < lines.len()
        invariant
            i <= lines.len(),
            vs == crate::lines::line_views(lines@),
            out@.len() == i,
            forall|k: int| 0 <= k < i ==> #[trigger] out@[k]@ == patch_line_spec(vs[k], pkg@, old_v@, new_v@),
            changed == exists|k: int| 0 <= k < i && patch_line_spec(vs[k], pkg@, old_v@, new_v@) != vs[k],
        decreases lines.len() - i,
    {
        let new_line = patch_line(&lines[i], pkg, old_v, new_v);
        let line_changed = !bytes_eq(&new_line, &lines[i]);
        if line_changed {
            changed = true;
        }
        proof {
            assert(vs[i as int] == lines@[i as int]@);
            if line_changed {
                assert(patch_line_spec(vs[i as int], pkg@, old_v@, new_v@) != vs[i as int]);
            }
        }
        out.push(new_line);
        i += 1;
    }
    proof {
        assert(crate::lines::line_views(out@) =~= patch_lines_spec(vs, pkg@, old_v@, new_v@));
    }
    PatchOutcome { lines: out, changed }
}

/// Whether patching would change the file at all.
pub open spec fn content_changes(content: Seq<u8>, pkg: Seq<u8>, old_v: Seq<u8>, new_v: Seq<u8>) -> bool {
    any_line_changed(crate::lines::split_lines_spec(content), pkg, old_v, new_v)
}

/// The rewritten file: every line patched, rejoined with one `\n` after each.
pub open spec fn patched_content(content: Seq<u8>, pkg: Seq<u8>, old_v: Seq<u8>, new_v: Seq<u8>) -> Seq<u8> {
    crate::lines::render(patch_lines_spec(crate::lines::split_lines_spec(content), pkg, old_v, new_v))
}

/// Patches one manifest's bytes. Returns the rewritten bytes when at least
/// one line changed, and nothing when the file is to be left untouched.
pub fn patch_content(content: &Vec<u8>, pkg: &Vec<u8>, old_v: &Vec<u8>, new_v: &Vec<u8>) -> (r: Option<Vec<u8>>)
    ensures
        r is Some <==> content_changes(content@, pkg@, old_v@, new_v@),
        r is Some ==> r.unwrap()@ == patched_content(content@, pkg@, old_v@, new_v@),
{
    let lines = crate::lines::split_lines(content);
    let outcome = patch_lines(&lines, pkg, old_v, new_v);
    if outcome.changed {
        Some(crate::lines::render_lines(&outcome.lines))
    } else {
        None
    }
}

} // verus!
