//! The workspace updater: patches every located manifest in discovery order
//! and accumulates the paths of those that actually changed. The lock step
//! is outside this module: it needs only the `name:oldVersion` package
//! identifier built here, and its outcome never affects the report.

use vstd::prelude::*;
use crate::lines::line_views;
use crate::patch::{content_changes, patched_content};
use crate::text::push_all;

verus! {

pub const COLON: u8 = 58;

/// The package identifier handed to the lock-resolution tool.
pub open spec fn pkgid_spec(pkg: Seq<u8>, old_v: Seq<u8>) -> Seq<u8> {
    pkg + seq![COLON] + old_v
}

/// Builds `<package>:<oldVersion>` as bytes.
pub fn pkgid(pkg: &Vec<u8>, old_v: &Vec<u8>) -> (r: Vec<u8>)
    ensures
        r@ == pkgid_spec(pkg@, old_v@),
{
    let mut out: Vec<u8> = Vec::new();
    push_all(&mut out, pkg);
    out.push(COLON);
    push_all(&mut out, old_v);
    proof {
        assert(out@ =~= pkgid_spec(pkg@, old_v@));
    }
    out
}

/// The paths, in order, of exactly those manifests whose contents change.
pub open spec fn updated_paths_spec(
    paths: Seq<Seq<u8>>,
    contents: Seq<Seq<u8>>,
    pkg: Seq<u8>,
    old_v: Seq<u8>,
    new_v: Seq<u8>,
) -> Seq<Seq<u8>>
    decreases paths.len(),
{
    if paths.len() == 0 || contents.len() == 0 {
        Seq::empty()
    } else {
        let rest = updated_paths_spec(paths.skip(1), contents.skip(1), pkg, old_v, new_v);
        if content_changes(contents[0], pkg, old_v, new_v) {
            seq![paths[0]] + rest
        } else {
            rest
        }
    }
}

proof fn lemma_updated_paths_push(
    paths: Seq<Seq<u8>>,
    contents: Seq<Seq<u8>>,
    p: Seq<u8>,
    c: Seq<u8>,
    pkg: Seq<u8>,
    old_v: Seq<u8>,
    new_v: Seq<u8>,
)
    requires
        paths.len() == contents.len(),
    ensures
        updated_paths_spec(paths.push(p), contents.push(c), pkg, old_v, new_v)
            == updated_paths_spec(paths, contents, pkg, old_v, new_v)
                + if content_changes(c, pkg, old_v, new_v) { seq![p] } else { Seq::empty() },
    decreases paths.len(),
{
    let tail = if content_changes(c, pkg, old_v, new_v) { seq![p] } else { Seq::<Seq<u8>>::empty() };
    if paths.len() == 0 {
        assert(paths.push(p).len() == 1);
        assert(paths.push(p)[0] == p);
        assert(contents.push(c)[0] == c);
        assert(paths.push(p).skip(1) =~= Seq::<Seq<u8>>::empty());
        assert(contents.push(c).skip(1) =~= Seq::<Seq<u8>>::empty());
        assert(updated_paths_spec(Seq::<Seq<u8>>::empty(), Seq::<Seq<u8>>::empty(), pkg, old_v, new_v)
            == Seq::<Seq<u8>>::empty());
        assert(updated_paths_spec(paths.push(p), contents.push(c), pkg, old_v, new_v)
            =~= updated_paths_spec(paths, contents, pkg, old_v, new_v) + tail);
    } else {
        assert(paths.push(p).skip(1) =~= paths.skip(1).push(p));
        assert(contents.push(c).skip(1) =~= contents.skip(1).push(c));
        assert(paths.push(p)[0] == paths[0]);
        assert(contents.push(c)[0] == contents[0]);
        lemma_updated_paths_push(paths.skip(1), contents.skip(1), p, c, pkg, old_v, new_v);
        if content_changes(contents[0], pkg, old_v, new_v) {
            assert(seq![paths[0]] + (updated_paths_spec(paths.skip(1), contents.skip(1), pkg, old_v, new_v) + tail)
                =~= (seq![paths[0]] + updated_paths_spec(paths.skip(1), contents.skip(1), pkg, old_v, new_v)) + tail);
        }
        assert(updated_paths_spec(paths.push(p), contents.push(c), pkg, old_v, new_v)
            =~= updated_paths_spec(paths, contents, pkg, old_v, new_v) + tail);
    }
}

/// One run's result: for each manifest, the rewritten bytes when it changed,
/// and the ordered list of the paths that were modified.
pub struct UpdateReport {
    pub new_contents: Vec<Option<Vec<u8>>>,
    pub updated: Vec<Vec<u8>>,
}

/// Patches every manifest's contents, in order, and reports exactly the
/// paths whose file changes, in that same order.
pub fn run_update(
    paths: &Vec<Vec<u8>>,
    contents: &Vec<Vec<u8>>,
    pkg: &Vec<u8>,
    old_v: &Vec<u8>,
    new_v: &Vec<u8>,
) -> (r: UpdateReport)
    requires
        paths.len() == contents.len(),
    ensures
        r.new_contents@.len() == paths@.len(),
        forall|i: int| 0 <= i < paths@.len()
            ==> ((#[trigger] r.new_contents@[i]) is Some
                <==> content_changes(contents@[i]@, pkg@, old_v@, new_v@)),
        forall|i: int| 0 <= i < paths@.len() && r.new_contents@[i] is Some
            ==> (#[trigger] r.new_contents@[i]).unwrap()@
                == patched_content(contents@[i]@, pkg@, old_v@, new_v@),
        line_views(r.updated@)
            == updated_paths_spec(line_views(paths@), line_views(contents@), pkg@, old_v@, new_v@),
{
    let ghost pv = line_views(paths@);
    let ghost cv = line_views(contents@);
    let mut new_contents: Vec<Option<Vec<u8>>> = Vec::new();
    let mut updated: Vec<Vec<u8>> = Vec::new();
    let mut i: usize = 0;
    proof {
        assert(pv.take(0) =~= Seq::<Seq<u8>>::empty());
        assert(cv.take(0) =~= Seq::<Seq<u8>>::empty());
        assert(line_views(updated@) =~= Seq::<Seq<u8>>::empty());
    }
    while i < paths.len()
        invariant
            paths@.len() == contents@.len(),
            pv == line_views(paths@),
            cv == line_views(contents@),
            i <= paths.len(),
            new_contents@.len() == i,
            forall|k: int| 0 <= k < i
                ==> ((#[trigger] new_contents@[k]) is Some
                    <==> content_changes(contents@[k]@, pkg@, old_v@, new_v@)),
            forall|k: int| 0 <= k < i && new_contents@[k] is Some
                ==> (#[trigger] new_contents@[k]).unwrap()@
                    == patched_content(contents@[k]@, pkg@, old_v@, new_v@),
            line_views(updated@)
                == updated_paths_spec(pv.take(i as int), cv.take(i as int), pkg@, old_v@, new_v@),
        decreases paths.len() - i,
    {
        let outcome = crate::patch::patch_content(&contents[i], pkg, old_v, new_v);
        proof {
            assert(cv[i as int] == contents@[i as int]@);
            assert(pv[i as int] == paths@[i as int]@);
            lemma_updated_paths_push(
                pv.take(i as int), cv.take(i as int), pv[i as int], cv[i as int],
                pkg@, old_v@, new_v@,
            );
            assert(pv.take(i + 1) =~= pv.take(i as int).push(pv[i as int]));
            assert(cv.take(i + 1) =~= cv.take(i as int).push(cv[i as int]));
        }
        match outcome {
            Some(nc) => {
                proof {
                    assert(line_views(updated@.push(paths@[i as int]))
                        =~= line_views(updated@).push(paths@[i as int]@));
                    assert(line_views(updated@).push(pv[i as int])
                        =~= line_views(updated@) + seq![pv[i as int]]);
                }
                let mut path_copy: Vec<u8> = Vec::new();
                push_all(&mut path_copy, &paths[i]);
                proof {
                    assert(Seq::<u8>::empty() + paths@[i as int]@ =~= paths@[i as int]@);
                    assert(line_views(updated@.push(path_copy))
                        =~= line_views(updated@) + seq![pv[i as int]]);
                }
                updated.push(path_copy);
                new_contents.push(Some(nc));
            },
            None => {
                proof {
                    assert(line_views(updated@)
                        =~= line_views(updated@) + Seq::<Seq<u8>>::empty());
                }
                new_contents.push(None);
            },
        }
        i += 1;
    }
    proof {
        assert(pv.take(paths@.len() as int) =~= pv);
        assert(cv.take(contents@.len() as int) =~= cv);
    }
    UpdateReport { new_contents, updated }
}

} // verus!
