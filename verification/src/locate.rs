//! The manifest locator: derives each workspace member's manifest path from
//! the metadata provider's member-location strings. A location holds a
//! filesystem path between a `file://` marker and a closing parenthesis;
//! the manifest filename is appended to the extracted directory.

use vstd::prelude::*;
use crate::errors::UpdateError;
use crate::patch::manifest_name;
use crate::text::{matches_at, match_at, push_all};

verus! {

pub const SLASH: u8 = 47;
pub const CLOSE_PAREN: u8 = 41;

/// The bytes of the marker `file://`.
pub open spec fn scheme_marker() -> Seq<u8> {
    seq![102u8, 105, 108, 101, 58, 47, 47]
}

/// First index at or after `i` where the marker occurs, or `-1` if none.
pub open spec fn find_marker(s: Seq<u8>, i: int) -> int
    decreases s.len() - i,
{
    if 0 <= i && i + scheme_marker().len() <= s.len() {
        if matches_at(s, scheme_marker(), i) {
            i
        } else {
            find_marker(s, i + 1)
        }
    } else {
        -1
    }
}

pub proof fn lemma_find_marker_bounds(s: Seq<u8>, i: int)
    requires
        0 <= i,
    ensures
        find_marker(s, i) == -1 || (i <= find_marker(s, i) && matches_at(s, scheme_marker(), find_marker(s, i))),
    decreases s.len() - i,
{
    if i + scheme_marker().len() <= s.len() && !matches_at(s, scheme_marker(), i) {
        lemma_find_marker_bounds(s, i + 1);
    }
}

/// Last index at or after `lo` holding a closing parenthesis, or `-1`.
pub open spec fn last_close(s: Seq<u8>, lo: int) -> int
    decreases s.len(),
{
    if s.len() == 0 || s.len() <= lo {
        -1
    } else if s[s.len() - 1] == CLOSE_PAREN && s.len() - 1 >= lo {
        s.len() - 1
    } else {
        last_close(s.take(s.len() - 1), lo)
    }
}

pub proof fn lemma_last_close_bounds(s: Seq<u8>, lo: int)
    requires
        0 <= lo,
    ensures
        last_close(s, lo) == -1 || (lo <= last_close(s, lo) < s.len() && s[last_close(s, lo)] == CLOSE_PAREN),
    decreases s.len(),
{
    if s.len() > 0 && s.len() > lo && !(s[s.len() - 1] == CLOSE_PAREN) {
        lemma_last_close_bounds(s.take(s.len() - 1), lo);
        if last_close(s.take(s.len() - 1), lo) != -1 {
            let r = last_close(s.take(s.len() - 1), lo);
            assert(s.take(s.len() - 1)[r] == s[r]);
        }
    } else if s.len() > 0 && s.len() > lo {
    }
}

/// Where the extracted directory of a member location starts.
pub open spec fn dir_start(loc: Seq<u8>) -> int {
    find_marker(loc, 0) + scheme_marker().len()
}

/// Where it ends: the last closing parenthesis after the marker.
pub open spec fn dir_end(loc: Seq<u8>) -> int {
    last_close(loc, dir_start(loc))
}

/// Whether the location carries the recognised `file://...)` shape.
pub open spec fn member_dir_ok(loc: Seq<u8>) -> bool {
    find_marker(loc, 0) >= 0 && dir_end(loc) >= 0
}

/// The directory embedded in a well-formed member location.
pub open spec fn member_dir(loc: Seq<u8>) -> Seq<u8> {
    loc.subrange(dir_start(loc), dir_end(loc))
}

/// The manifest filename appended to a directory path.
pub open spec fn manifest_path_of(dir: Seq<u8>) -> Seq<u8> {
    if dir.len() == 0 {
        manifest_name()
    } else if dir.last() == SLASH {
        dir + manifest_name()
    } else {
        dir + seq![SLASH] + manifest_name()
    }
}

/// Builds the marker `file://` as bytes.
fn scheme_marker_bytes() -> (r: Vec<u8>)
    ensures
        r@ == scheme_marker(),
{
    let mut v: Vec<u8> = Vec::new();
    v.push(102);
    v.push(105);
    v.push(108);
    v.push(101);
    v.push(58);
    v.push(47);
    v.push(47);
    proof {
        assert(v@ =~= scheme_marker());
    }
    v
}

/// Finds the leftmost `file://` marker.
fn find_marker_exec(loc: &Vec<u8>) -> (r: Option<usize>)
    ensures
        r is Some ==> r.unwrap() == find_marker(loc@, 0) && find_marker(loc@, 0) >= 0,
        r is None ==> find_marker(loc@, 0) == -1,
{
    let marker = scheme_marker_bytes();
    if loc.len() < marker.len() {
        return None;
    }
    let last = loc.len() - marker.len();
    let mut at: usize = 0;
    while at <= last
        invariant
            marker@ == scheme_marker(),
            loc.len() >= scheme_marker().len(),
            last == loc.len() - scheme_marker().len(),
            at <= last + 1,
            find_marker(loc@, 0) == find_marker(loc@, at as int),
        decreases last + 1 - at,
    {
        if match_at(loc, &marker, at) {
            return Some(at);
        }
        at += 1;
    }
    None
}

/// Finds the last closing parenthesis at or after `lo`.
fn last_close_exec(loc: &Vec<u8>, lo: usize) -> (r: Option<usize>)
    requires
        lo <= loc.len(),
    ensures
        r is Some ==> r.unwrap() == last_close(loc@, lo as int) && last_close(loc@, lo as int) >= 0,
        r is None ==> last_close(loc@, lo as int) == -1,
{
    let mut k: usize = loc.len();
    proof {
        assert(loc@.take(loc@.len() as int) =~= loc@);
    }
    while k > lo
        invariant
            lo <= k <= loc.len(),
            last_close(loc@, lo as int) == last_close(loc@.take(k as int), lo as int),
        decreases k,
    {
        proof {
            assert(loc@.take(k as int).take(k - 1) =~= loc@.take(k - 1));
        }
        if loc[k - 1] == CLOSE_PAREN {
            proof {
                assert(loc@.take(k as int)[k - 1] == loc@[k - 1]);
            }
            return Some(k - 1);
        }
        k -= 1;
    }
    proof {
        assert(last_close(loc@.take(k as int), lo as int) == -1) by {
            assert(loc@.take(k as int).len() == k);
        }
    }
    None
}

/// Derives the manifest path embedded in one member-location string.
pub fn extract_manifest_path(loc: &Vec<u8>) -> (r: Result<Vec<u8>, UpdateError>)
    ensures
        r is Ok <==> member_dir_ok(loc@),
        r is Ok ==> r.unwrap()@ == manifest_path_of(member_dir(loc@)),
        r is Err ==> r.unwrap_err() == UpdateError::MalformedMemberLocation,
{
    let start = match find_marker_exec(loc) {
        Some(m) => {
            proof {
                lemma_find_marker_bounds(loc@, 0);
                assert(scheme_marker().len() == 7);
                assert(matches_at(loc@, scheme_marker(), m as int));
                assert(m + 7 <= loc.len());
            }
            m + 7
        },
        None => {
            return Err(UpdateError::MalformedMemberLocation);
        },
    };
    let end = match last_close_exec(loc, start) {
        Some(e) => e,
        None => {
            return Err(UpdateError::MalformedMemberLocation);
        },
    };
    proof {
        lemma_last_close_bounds(loc@, start as int);
    }
    let mut dir: Vec<u8> = Vec::new();
    let mut k: usize = start;
    proof {
        assert(loc@.subrange(start as int, start as int) =~= Seq::<u8>::empty());
    }
    while k < end
        invariant
            start <= k <= end <= loc.len(),
            dir@ == loc@.subrange(start as int, k as int),
        decreases end - k,
    {
        proof {
            assert(loc@.subrange(start as int, k as int).push(loc@[k as int])
                =~= loc@.subrange(start as int, k + 1));
        }
        let b = loc[k];
        dir.push(b);
        k += 1;
    }
    proof {
        assert(dir@ == member_dir(loc@));
    }
    let mut path = dir;
    let name = crate::patch::manifest_filename();
    if path.len() == 0 {
        proof {
            assert(Seq::<u8>::empty() + manifest_name() =~= manifest_name());
        }
        let mut out: Vec<u8> = Vec::new();
        push_all(&mut out, &name);
        return Ok(out);
    }
    if path[path.len() - 1] != SLASH {
        path.push(SLASH);
        proof {
            assert(member_dir(loc@).push(SLASH) =~= member_dir(loc@) + seq![SLASH]);
        }
    }
    push_all(&mut path, &name);
    Ok(path)
}

/// Derives every member's manifest path, in the order the members came,
/// refusing the whole list when any location is malformed.
pub fn locate_manifests(members: &Vec<Vec<u8>>) -> (r: Result<Vec<Vec<u8>>, UpdateError>)
    ensures
        r is Ok <==> (forall|i: int| 0 <= i < members@.len() ==> member_dir_ok(#[trigger] members@[i]@)),
        r is Ok ==> r.unwrap()@.len() == members@.len()
            && forall|i: int| 0 <= i < members@.len()
                ==> #[trigger] r.unwrap()@[i]@ == manifest_path_of(member_dir(members@[i]@)),
        r is Err ==> r.unwrap_err() == UpdateError::MalformedMemberLocation,
{
    let mut out: Vec<Vec<u8>> = Vec::new();
    let mut i: usize = 0;
    while i < members.len()
        invariant
            i <= members.len(),
            out@.len() == i,
            forall|k: int| 0 <= k < i ==> member_dir_ok(#[trigger] members@[k]@),
            forall|k: int| 0 <= k < i
                ==> #[trigger] out@[k]@ == manifest_path_of(member_dir(members@[k]@)),
        decreases members.len() - i,
    {
        match extract_manifest_path(&members[i]) {
            Ok(p) => {
                out.push(p);
            },
            Err(e) => {
                proof {
                    assert(!member_dir_ok(members@[i as int]@));
                }
                return Err(e);
            },
        }
        i += 1;
    }
    Ok(out)
}

} // verus!
