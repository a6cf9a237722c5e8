//! Keys are normalized absolute locations. A caller hands the cache a
//! relative path; it is resolved against the manager's base location by
//! splitting on `/`, dropping empty and `.` segments, folding `..` into the
//! segments gathered so far, and joining the rest below the base. A path that
//! is absolute or that climbs above the base does not resolve to a key.

use vstd::prelude::*;

verus! {

/// The path separator byte, `/`.
pub const SLASH: u8 = 47;

/// The byte `.`, used by the `.` and `..` path segments.
pub const DOT: u8 = 46;

/// The views of a sequence of byte vectors.
pub open spec fn views_of(s: Seq<Vec<u8>>) -> Seq<Seq<u8>> {
    Seq::new(s.len(), |i: int| s[i]@)
}

/// The segments of `s`, split on `/`. Splitting keeps empty segments, so the
/// result always holds at least one segment.
pub open spec fn split_segs(s: Seq<u8>) -> Seq<Seq<u8>>
    decreases s.len(),
{
    if s.len() == 0 {
        seq![Seq::<u8>::empty()]
    } else if s.last() == SLASH {
        split_segs(s.drop_last()).push(Seq::<u8>::empty())
    } else {
        let pre = split_segs(s.drop_last());
        pre.update(pre.len() - 1, pre.last().push(s.last()))
    }
}

/// The one-byte segment `.`.
pub open spec fn dot_seg() -> Seq<u8> {
    seq![DOT]
}

/// The two-byte segment `..`.
pub open spec fn dotdot_seg() -> Seq<u8> {
    seq![DOT, DOT]
}

/// Folds raw path segments into normalized ones: empty and `.` segments are
/// dropped, `..` removes the segment gathered before it, and a `..` with no
/// segment left to remove escapes the base, so nothing is returned.
pub open spec fn norm_segs(segs: Seq<Seq<u8>>) -> Option<Seq<Seq<u8>>>
    decreases segs.len(),
{
    if segs.len() == 0 {
        Some(Seq::<Seq<u8>>::empty())
    } else {
        match norm_segs(segs.drop_last()) {
            None => None,
            Some(st) => {
                let sg = segs.last();
                if sg.len() == 0 || sg == dot_seg() {
                    Some(st)
                } else if sg == dotdot_seg() {
                    if st.len() == 0 {
                        None
                    } else {
                        Some(st.drop_last())
                    }
                } else {
                    Some(st.push(sg))
                }
            },
        }
    }
}

/// The base followed by `/` and a segment, for each segment in order.
pub open spec fn join_segs(base: Seq<u8>, segs: Seq<Seq<u8>>) -> Seq<u8>
    decreases segs.len(),
{
    if segs.len() == 0 {
        base
    } else {
        join_segs(base, segs.drop_last()).push(SLASH) + segs.last()
    }
}

/// The key that a relative path resolves to under a base location, if any.
/// An absolute path (leading `/`) and a path whose `..` segments climb above
/// the base do not resolve; identical inputs always resolve to the same key.
pub open spec fn resolve_spec(base: Seq<u8>, rel: Seq<u8>) -> Option<Seq<u8>> {
    if rel.len() > 0 && rel[0] == SLASH {
        None
    } else {
        match norm_segs(split_segs(rel)) {
            None => None,
            Some(segs) => Some(join_segs(base, segs)),
        }
    }
}

/// A `None` from a prefix of the segments settles the whole fold.
proof fn lemma_norm_none(segs: Seq<Seq<u8>>, i: int)
    requires
        0 <= i <= segs.len(),
        norm_segs(segs.take(i)) is None,
    ensures
        norm_segs(segs) is None,
    decreases segs.len() - i,
{
    if i == segs.len() {
        assert(segs.take(i) =~= segs);
    } else {
        assert(segs.take(i + 1).drop_last() =~= segs.take(i));
        lemma_norm_none(segs, i + 1);
    }
}

/// Copies a byte vector.
fn copy_bytes(src: &Vec<u8>) -> (r: Vec<u8>)
    ensures
        r@ == src@,
{
    let mut r: Vec<u8> = Vec::new();
    let mut i: usize = 0;
    while i < src.len()
        invariant
            i <= src@.len(),
            r@ == src@.take(i as int),
        decreases src@.len() - i,
    {
        r.push(src[i]);
        i = i + 1;
        proof {
            assert(src@.take(i as int) =~= src@.take(i - 1).push(src@[i - 1]));
        }
    }
    proof {
        assert(src@.take(src@.len() as int) =~= src@);
    }
    r
}

/// Whether two byte vectors hold the same bytes.
pub fn bytes_eq(a: &Vec<u8>, b: &Vec<u8>) -> (r: bool)
    ensures
        r <==> a@ == b@,
{
    if a.len() != b.len() {
        return false;
    }
    let mut i: usize = 0;
    while i < a.len()
        invariant
            a@.len() == b@.len(),
            i <= a@.len(),
            forall|j: int| 0 <= j < i ==> a@[j] == b@[j],
        decreases a@.len() - i,
    {
        if a[i] != b[i] {
            return false;
        }
        i = i + 1;
    }
    proof {
        assert(a@ =~= b@);
    }
    true
}

/// Whether `sg` is the segment `.`.
fn is_dot(sg: &Vec<u8>) -> (r: bool)
    ensures
        r <==> sg@ == dot_seg(),
{
    let r = sg.len() == 1 && sg[0] == DOT;
    proof {
        if r {
            assert(sg@ =~= dot_seg());
        }
    }
    r
}

/// Whether `sg` is the segment `..`.
fn is_dotdot(sg: &Vec<u8>) -> (r: bool)
    ensures
        r <==> sg@ == dotdot_seg(),
{
    let r = sg.len() == 2 && sg[0] == DOT && sg[1] == DOT;
    proof {
        if r {
            assert(sg@ =~= dotdot_seg());
        }
    }
    r
}

/// Splits a relative path into its raw segments.
fn split(rel: &Vec<u8>) -> (segs: Vec<Vec<u8>>)
    ensures
        views_of(segs@) == split_segs(rel@),
{
    let mut done: Vec<Vec<u8>> = Vec::new();
    let mut cur: Vec<u8> = Vec::new();
    let mut i: usize = 0;
    while i < rel.len()
        invariant
            i <= rel@.len(),
            split_segs(rel@.take(i as int)) == views_of(done@).push(cur@),
        decreases rel@.len() - i,
    {
        let b = rel[i];
        proof {
            assert(rel@.take(i + 1).drop_last() =~= rel@.take(i as int));
            assert(rel@.take(i + 1).last() == rel@[i as int]);
        }
        if b == SLASH {
            done.push(cur);
            cur = Vec::new();
            proof {
                assert(views_of(done@).push(cur@) =~= split_segs(rel@.take(i as int)).push(
                    Seq::<u8>::empty(),
                ));
            }
        } else {
            proof {
                let pre = split_segs(rel@.take(i as int));
                assert(pre.update(pre.len() - 1, pre.last().push(b)) =~= views_of(done@).push(
                    cur@.push(b),
                ));
            }
            cur.push(b);
        }
        i = i + 1;
    }
    proof {
        assert(rel@.take(rel@.len() as int) =~= rel@);
    }
    done.push(cur);
    proof {
        assert(views_of(done@).drop_last() =~= views_of(done@.drop_last()));
        assert(views_of(done@) =~= split_segs(rel@));
    }
    done
}

/// Folds raw segments into normalized ones, or reports that the path
/// escapes the base.
fn normalize(segs: &Vec<Vec<u8>>) -> (r: Option<Vec<Vec<u8>>>)
    ensures
        (r matches Some(st) ==> norm_segs(views_of(segs@)) == Some(views_of(st@))),
        (r is None ==> norm_segs(views_of(segs@)) is None),
{
    let mut st: Vec<Vec<u8>> = Vec::new();
    let mut i: usize = 0;
    while i < segs.len()
        invariant
            i <= segs@.len(),
            norm_segs(views_of(segs@).take(i as int)) == Some(views_of(st@)),
        decreases segs@.len() - i,
    {
        proof {
            assert(views_of(segs@).take(i + 1).drop_last() =~= views_of(segs@).take(i as int));
            assert(views_of(segs@).take(i + 1).last() == segs@[i as int]@);
        }
        let sg = &segs[i];
        if sg.len() == 0 || is_dot(sg) {
            // dropped
        } else if is_dotdot(sg) {
            if st.len() == 0 {
                proof {
                    lemma_norm_none(views_of(segs@), i + 1);
                }
                return None;
            }
            let discarded = st.pop();
            proof {
                assert(views_of(st@) =~= views_of(st@.push(discarded.unwrap())).drop_last());
            }
        } else {
            st.push(copy_bytes(sg));
            proof {
                assert(views_of(st@) =~= views_of(st@.drop_last()).push(sg@));
            }
        }
        i = i + 1;
    }
    proof {
        assert(views_of(segs@).take(segs@.len() as int) =~= views_of(segs@));
    }
    Some(st)
}

/// Joins the base and the normalized segments into one key.
fn join(base: &Vec<u8>, segs: &Vec<Vec<u8>>) -> (out: Vec<u8>)
    ensures
        out@ == join_segs(base@, views_of(segs@)),
{
    let mut out = copy_bytes(base);
    let mut i: usize = 0;
    while i < segs.len()
        invariant
            i <= segs@.len(),
            out@ == join_segs(base@, views_of(segs@).take(i as int)),
        decreases segs@.len() - i,
    {
        proof {
            assert(views_of(segs@).take(i + 1).drop_last() =~= views_of(segs@).take(i as int));
            assert(views_of(segs@).take(i + 1).last() == segs@[i as int]@);
        }
        out.push(SLASH);
        let sg = &segs[i];
        let mut j: usize = 0;
        while j < sg.len()
            invariant
                j <= sg@.len(),
                out@ == join_segs(base@, views_of(segs@).take(i as int)).push(SLASH) + sg@.take(
                    j as int,
                ),
            decreases sg@.len() - j,
        {
            out.push(sg[j]);
            j = j + 1;
            proof {
                assert(join_segs(base@, views_of(segs@).take(i as int)).push(SLASH) + sg@.take(
                    j as int,
                ) =~= (join_segs(base@, views_of(segs@).take(i as int)).push(SLASH) + sg@.take(
                    j - 1,
                )).push(sg@[j - 1]));
            }
        }
        proof {
            assert(sg@.take(sg@.len() as int) =~= sg@);
        }
        i = i + 1;
    }
    proof {
        assert(views_of(segs@).take(segs@.len() as int) =~= views_of(segs@));
    }
    out
}

/// Resolves a relative path against a base location into a key, exactly as
/// `resolve_spec` says: `None` when the path is absolute or escapes the base.
pub fn resolve(base: &Vec<u8>, rel: &Vec<u8>) -> (r: Option<Vec<u8>>)
    ensures
        (r matches Some(k) ==> resolve_spec(base@, rel@) == Some(k@)),
        (r is None ==> resolve_spec(base@, rel@) is None),
{
    if rel.len() > 0 && rel[0] == SLASH {
        return None;
    }
    let segs = split(rel);
    match normalize(&segs) {
        None => None,
        Some(st) => Some(join(base, &st)),
    }
}

} // verus!
