//! Intermediate-directory discovery.
//!
//! Before the moves run, every destination's parent must exist.  Parents that
//! are missing (and are not the group directory itself, which is created
//! unconditionally) are collected, deduplicated so that no listed directory is
//! a descendant of another — creating the ancestor recursively creates the
//! descendant — and sorted deterministically for stable reporting.

use vstd::prelude::*;

verus! {

use crate::order::{fs_path_le, lemma_path_le_total, lemma_path_le_transitive, path_le};
use crate::path::{FsPath, is_prefix_of, is_strict_prefix_of, lemma_prefix_transitive};
use crate::plan::{ImportError, PlannedMove};

broadcast use {vstd::seq_lib::group_to_multiset_ensures, vstd::multiset::group_multiset_axioms};

/// The views of a path list, in order.
pub open spec fn views_of(s: Seq<FsPath>) -> Seq<Seq<Seq<char>>> {
    s.map_values(|p: FsPath| p@)
}

/// Some entry of `s` names location `pv`.
pub open spec fn contains_view(s: Seq<FsPath>, pv: Seq<Seq<char>>) -> bool {
    exists|i: int| 0 <= i < s.len() && s[i]@ == pv
}

/// Some entry of `s` is an ancestor of location `pv`, or names it outright.
pub open spec fn covered_by(s: Seq<FsPath>, pv: Seq<Seq<char>>) -> bool {
    exists|k: int| 0 <= k < s.len() && is_prefix_of(#[trigger] s[k]@, pv)
}

/// The list is ordered by the deterministic path order.
pub open spec fn sorted_paths(s: Seq<FsPath>) -> bool {
    forall|i: int, j: int| 0 <= i <= j < s.len() ==> path_le(s[i]@, s[j]@)
}

/// An entry survives deduplication when it is not a strict descendant of any
/// entry and no earlier entry names the same location.
pub open spec fn survives_dedup(s: Seq<FsPath>, i: int) -> bool {
    &&& !(exists|j: int| 0 <= j < s.len() && is_strict_prefix_of(s[j]@, s[i]@))
    &&& !(exists|j: int| 0 <= j < i && s[j]@ == s[i]@)
}

/// A sequence's views contain `pv` exactly when some entry has view `pv`.
proof fn lemma_views_contains(s: Seq<FsPath>, pv: Seq<Seq<char>>)
    ensures
        views_of(s).contains(pv) == contains_view(s, pv),
{
    if contains_view(s, pv) {
        let i = choose|i: int| 0 <= i < s.len() && s[i]@ == pv;
        assert(views_of(s)[i] == pv);
    }
    if views_of(s).contains(pv) {
        let i = choose|i: int| 0 <= i < views_of(s).len() && views_of(s)[i] == pv;
        assert(s[i]@ == pv);
    }
}

/// Is some entry of `dirs` a strict ancestor of `dirs[i]`?
fn has_strict_ancestor_in(dirs: &Vec<FsPath>, i: usize) -> (r: bool)
    requires
        i < dirs@.len(),
    ensures
        r == exists|j: int| 0 <= j < dirs@.len() && is_strict_prefix_of(dirs@[j]@, dirs@[i as int]@),
{
    let mut j: usize = 0;
    while j < dirs.len()
        invariant
            i < dirs@.len(),
            j <= dirs@.len(),
            forall|k: int| 0 <= k < j ==> !is_strict_prefix_of(dirs@[k]@, dirs@[i as int]@),
        decreases dirs@.len() - j,
    {
        if dirs[i].starts_with(&dirs[j]) && dirs[j].depth() < dirs[i].depth() {
            assert(is_strict_prefix_of(dirs@[j as int]@, dirs@[i as int]@));
            return true;
        }
        j += 1;
    }
    false
}

/// Does any entry before `dirs[i]` name the same location?
fn has_equal_before(dirs: &Vec<FsPath>, i: usize) -> (r: bool)
    requires
        i < dirs@.len(),
    ensures
        r == exists|j: int| 0 <= j < i && dirs@[j]@ == dirs@[i as int]@,
{
    let mut j: usize = 0;
    while j < i
        invariant
            i < dirs@.len(),
            j <= i,
            forall|k: int| 0 <= k < j ==> dirs@[k]@ != dirs@[i as int]@,
        decreases i - j,
    {
        if dirs[j].same_as(&dirs[i]) {
            return true;
        }
        j += 1;
    }
    false
}

/// Every entry has a surviving ancestor-or-self: the shortest, earliest entry
/// among its own prefixes in the list.
proof fn lemma_minimal_ancestor(s: Seq<FsPath>, j: int)
    requires
        0 <= j < s.len(),
    ensures
        exists|i: int|
            0 <= i < s.len() && #[trigger] survives_dedup(s, i) && is_prefix_of(s[i]@, s[j]@),
    decreases s[j]@.len(), j,
{
    assert(s[j]@.subrange(0, s[j]@.len() as int) =~= s[j]@);
    if survives_dedup(s, j) {
        assert(0 <= j < s.len() && survives_dedup(s, j) && is_prefix_of(s[j]@, s[j]@));
    } else if exists|j2: int| 0 <= j2 < s.len() && is_strict_prefix_of(s[j2]@, s[j]@) {
        let j2 = choose|j2: int| 0 <= j2 < s.len() && is_strict_prefix_of(s[j2]@, s[j]@);
        lemma_minimal_ancestor(s, j2);
        let i = choose|i: int|
            0 <= i < s.len() && #[trigger] survives_dedup(s, i) && is_prefix_of(s[i]@, s[j2]@);
        lemma_prefix_transitive(s[i]@, s[j2]@, s[j]@);
    } else {
        let j2 = choose|j2: int| 0 <= j2 < j && s[j2]@ == s[j]@;
        lemma_minimal_ancestor(s, j2);
    }
}

/// Remove every entry that is a strict descendant of another entry — creating
/// the ancestor recursively creates it — and every repetition of an entry.
/// What remains covers every removed entry by an ancestor-or-self, and no two
/// remaining entries name the same location.
pub fn dedup_nested(dirs: &mut Vec<FsPath>)
    ensures
        forall|k: int| 0 <= k < final(dirs)@.len() ==> contains_view(old(dirs)@, final(dirs)@[k]@),
        forall|k: int, j: int|
            0 <= k < final(dirs)@.len() && 0 <= j < old(dirs)@.len() ==> !is_strict_prefix_of(
                old(dirs)@[j]@,
                final(dirs)@[k]@,
            ),
        forall|j: int|
            #![trigger old(dirs)@[j]]
            0 <= j < old(dirs)@.len() ==> covered_by(final(dirs)@, old(dirs)@[j]@),
        forall|k1: int, k2: int|
            0 <= k1 < k2 < final(dirs)@.len() ==> final(dirs)@[k1]@ != final(dirs)@[k2]@,
{
    let mut kept: Vec<FsPath> = Vec::new();
    let ghost mut srcs: Seq<int> = Seq::empty();
    let mut i: usize = 0;
    while i < dirs.len()
        invariant
            i <= dirs@.len(),
            dirs@ == old(dirs)@,
            srcs.len() == kept@.len(),
            forall|k: int| 0 <= k < kept@.len() ==> 0 <= #[trigger] srcs[k] < i,
            forall|k: int| 0 <= k < kept@.len() ==> survives_dedup(dirs@, #[trigger] srcs[k]),
            forall|k: int| 0 <= k < kept@.len() ==> kept@[k]@ == dirs@[#[trigger] srcs[k]]@,
            forall|k1: int, k2: int| 0 <= k1 < k2 < kept@.len() ==> srcs[k1] < srcs[k2],
            forall|i0: int|
                0 <= i0 < i && #[trigger] survives_dedup(dirs@, i0) ==> exists|k: int|
                    0 <= k < kept@.len() && srcs[k] == i0,
        decreases dirs@.len() - i,
    {
        let anc = has_strict_ancestor_in(dirs, i);
        let eq = has_equal_before(dirs, i);
        if !anc && !eq {
            let ghost old_srcs = srcs;
            let ghost old_kept_len = kept@.len();
            kept.push(dirs[i].clone());
            proof {
                srcs = srcs.push(i as int);
                assert(survives_dedup(dirs@, i as int));
                assert(srcs[old_kept_len as int] == i as int);
                assert(forall|k: int| 0 <= k < old_kept_len ==> srcs[k] == old_srcs[k]);
                assert forall|i0: int|
                    0 <= i0 < i + 1 && #[trigger] survives_dedup(dirs@, i0) implies exists|k: int|
                    0 <= k < kept@.len() && srcs[k] == i0 by {
                    if i0 == i as int {
                        assert(srcs[old_kept_len as int] == i0);
                    } else {
                        let k = choose|k: int| 0 <= k < old_kept_len && old_srcs[k] == i0;
                        assert(srcs[k] == i0);
                    }
                };
            }
        } else {
            proof {
                assert(!survives_dedup(dirs@, i as int));
            }
        }
        i += 1;
    }
    proof {
        assert forall|i0: int|
            0 <= i0 < old(dirs)@.len() && #[trigger] survives_dedup(old(dirs)@, i0) implies exists|
            k: int,
        | 0 <= k < srcs.len() && srcs[k] == i0 by {
            assert(survives_dedup(dirs@, i0));
        };
    }
    let ghost n_kept = kept@.len();
    *dirs = kept;
    proof {
        assert(dirs@.len() == n_kept);
        assert forall|k: int| 0 <= k < dirs@.len() implies contains_view(old(dirs)@, dirs@[k]@) by {
            assert(dirs@[k]@ == old(dirs)@[srcs[k]]@);
        };
        assert forall|k: int, j: int|
            0 <= k < dirs@.len() && 0 <= j < old(dirs)@.len() implies !is_strict_prefix_of(
            old(dirs)@[j]@,
            dirs@[k]@,
        ) by {
            assert(survives_dedup(old(dirs)@, srcs[k]));
            assert(dirs@[k]@ == old(dirs)@[srcs[k]]@);
        };
        assert forall|j: int| #![trigger old(dirs)@[j]]
            0 <= j < old(dirs)@.len() implies covered_by(dirs@, old(dirs)@[j]@) by {
            lemma_minimal_ancestor(old(dirs)@, j);
            let i0 = choose|i0: int|
                0 <= i0 < old(dirs)@.len() && #[trigger] survives_dedup(old(dirs)@, i0)
                    && is_prefix_of(old(dirs)@[i0]@, old(dirs)@[j]@);
            let k = choose|k: int| 0 <= k < srcs.len() && srcs[k] == i0;
            assert(dirs@[k]@ == old(dirs)@[srcs[k]]@);
            assert(is_prefix_of(dirs@[k]@, old(dirs)@[j]@));
        };
        assert forall|k1: int, k2: int| 0 <= k1 < k2 < dirs@.len() implies dirs@[k1]@
            != dirs@[k2]@ by {
            if dirs@[k1]@ == dirs@[k2]@ {
                assert(survives_dedup(old(dirs)@, srcs[k2]));
                assert(dirs@[k1]@ == old(dirs)@[srcs[k1]]@);
                assert(dirs@[k2]@ == old(dirs)@[srcs[k2]]@);
                assert(srcs[k1] < srcs[k2]);
                assert(!survives_dedup(old(dirs)@, srcs[k2]));
            }
        };
    }
}

/// Sort the list by the deterministic path order, keeping exactly the same
/// locations (as a multiset of views).
pub fn sort_paths(v: &mut Vec<FsPath>)
    ensures
        views_of(final(v)@).to_multiset() == views_of(old(v)@).to_multiset(),
        sorted_paths(final(v)@),
        final(v)@.len() == old(v)@.len(),
{
    let mut out: Vec<FsPath> = Vec::new();
    proof {
        assert(views_of(out@) =~= Seq::<Seq<Seq<char>>>::empty());
        assert(views_of(out@).to_multiset().add(views_of(v@).to_multiset()) =~= views_of(
            v@,
        ).to_multiset());
    }
    while v.len() > 0
        invariant
            views_of(out@).to_multiset().add(views_of(v@).to_multiset()) == views_of(
                old(v)@,
            ).to_multiset(),
            out@.len() + v@.len() == old(v)@.len(),
            sorted_paths(out@),
            forall|k: int, j: int|
                0 <= k < out@.len() && 0 <= j < v@.len() ==> path_le(out@[k]@, v@[j]@),
        decreases v@.len(),
    {
        let mut min: usize = 0;
        let mut j: usize = 1;
        proof {
            lemma_path_le_total(v@[0]@, v@[0]@);
        }
        while j < v.len()
            invariant
                v@.len() > 0,
                min < j <= v@.len(),
                forall|k: int| 0 <= k < j ==> path_le(v@[min as int]@, v@[k]@),
            decreases v@.len() - j,
        {
            if fs_path_le(&v[j], &v[min]) {
                proof {
                    assert forall|k: int| 0 <= k < j + 1 implies path_le(v@[j as int]@, v@[k]@) by {
                        if k < j {
                            lemma_path_le_transitive(v@[j as int]@, v@[min as int]@, v@[k]@);
                        } else {
                            lemma_path_le_total(v@[j as int]@, v@[j as int]@);
                        }
                    };
                }
                min = j;
            } else {
                proof {
                    lemma_path_le_total(v@[min as int]@, v@[j as int]@);
                }
            }
            j += 1;
        }
        let ghost v_before = v@;
        let x = v.remove(min);
        proof {
            let vs = views_of(v_before);
            assert(views_of(v@) =~= vs.remove(min as int));
            assert(vs.remove(min as int).to_multiset() =~= vs.to_multiset().remove(
                vs[min as int],
            ));
            assert(vs[min as int] == x@);
            assert(vs.to_multiset().count(x@) > 0) by {
                assert(vs.contains(x@));
            };
            let ghost out_before = out@;
            assert(views_of(out_before.push(x)) =~= views_of(out_before).push(x@));
        }
        out.push(x);
        proof {
            assert(views_of(out@).to_multiset() =~= views_of(out@.drop_last()).to_multiset().insert(
                x@,
            )) by {
                assert(out@.drop_last().push(out@.last()) =~= out@);
                assert(views_of(out@.drop_last()).push(x@) =~= views_of(out@));
            };
            assert(views_of(out@).to_multiset().add(views_of(v@).to_multiset())
                =~= views_of(old(v)@).to_multiset());
            assert forall|k: int, jj: int|
                0 <= k < out@.len() && 0 <= jj < v@.len() implies path_le(out@[k]@, v@[jj]@) by {
                assert(v@ == v_before.remove(min as int));
                if jj < min {
                    assert(v@[jj] == v_before[jj]);
                } else {
                    assert(v@[jj] == v_before[jj + 1]);
                }
            };
        }
    }
    *v = out;
}

/// What the caller observed at one destination's parent path.
#[derive(Clone, Copy)]
pub enum ParentSlot {
    /// Nothing exists there yet.
    Missing,
    /// A directory already exists there.
    Directory,
    /// A non-directory entry occupies the path.
    Occupied,
}

/// Move `i`'s destination parent must be created: nothing stands there yet
/// and it is not the group directory itself, which is created unconditionally.
pub open spec fn dir_needed(
    moves: Seq<PlannedMove>,
    slots: Seq<ParentSlot>,
    group: Seq<Seq<char>>,
    i: int,
) -> bool {
    slots[i] is Missing && moves[i].dest@.drop_last() != group
}

/// Two path lists holding the same multiset of views contain the same views.
proof fn lemma_same_multiset_same_views(a: Seq<FsPath>, b: Seq<FsPath>)
    requires
        views_of(a).to_multiset() == views_of(b).to_multiset(),
    ensures
        forall|pv: Seq<Seq<char>>|
            #![trigger contains_view(a, pv)]
            #![trigger contains_view(b, pv)]
            contains_view(a, pv) == contains_view(b, pv),
{
    assert forall|pv: Seq<Seq<char>>|
        #![trigger contains_view(a, pv)]
        #![trigger contains_view(b, pv)]
        contains_view(a, pv) == contains_view(b, pv) by {
        lemma_views_contains(a, pv);
        lemma_views_contains(b, pv);
        assert(views_of(a).contains(pv) <==> views_of(a).to_multiset().count(pv) > 0);
        assert(views_of(b).contains(pv) <==> views_of(b).to_multiset().count(pv) > 0);
    };
}

/// Decide which directories must be created before the moves run.  Refuses
/// the batch if a non-directory occupies any destination's parent; otherwise
/// returns the missing parents (other than the group directory itself),
/// deduplicated so that no listed directory is a descendant of another, and
/// sorted.  When every parent already exists as a directory there is nothing
/// to create, so re-running discovery after creation plans no further work.
pub fn plan_intermediate_dirs(
    moves: &Vec<PlannedMove>,
    slots: &Vec<ParentSlot>,
    group_dir: &FsPath,
) -> (r: Result<Vec<FsPath>, ImportError>)
    requires
        slots@.len() == moves@.len(),
        forall|i: int| 0 <= i < moves@.len() ==> moves@[i].dest@.len() > 0,
    ensures
        (r is Ok) <==> (forall|i: int| 0 <= i < slots@.len() ==> !(slots@[i] is Occupied)),
        r matches Err(e) ==> exists|i: int|
            {
                &&& 0 <= i < slots@.len()
                &&& #[trigger] slots@[i] is Occupied
                &&& forall|j: int| 0 <= j < i ==> !(slots@[j] is Occupied)
                &&& e matches ImportError::ObstructedDirectorySlot { parent } && parent@
                    == moves@[i].dest@.drop_last()
            },
        r matches Ok(dirs) ==> {
            &&& forall|k: int|
                #![trigger dirs@[k]]
                0 <= k < dirs@.len() ==> exists|t: int|
                    0 <= t < moves@.len() && #[trigger] dir_needed(moves@, slots@, group_dir@, t)
                        && dirs@[k]@ == moves@[t].dest@.drop_last()
            &&& forall|k: int, t: int|
                #![trigger dirs@[k], moves@[t]]
                0 <= k < dirs@.len() && 0 <= t < moves@.len() && dir_needed(
                    moves@,
                    slots@,
                    group_dir@,
                    t,
                ) ==> !is_strict_prefix_of(moves@[t].dest@.drop_last(), dirs@[k]@)
            &&& forall|t: int|
                0 <= t < moves@.len() && #[trigger] dir_needed(moves@, slots@, group_dir@, t)
                    ==> covered_by(dirs@, moves@[t].dest@.drop_last())
            &&& sorted_paths(dirs@)
            &&& forall|k1: int, k2: int| 0 <= k1 < k2 < dirs@.len() ==> dirs@[k1]@ != dirs@[k2]@
            &&& ((forall|i: int| 0 <= i < slots@.len() ==> slots@[i] is Directory) ==> dirs@.len()
                == 0)
        },
{
    let mut i: usize = 0;
    while i < slots.len()
        invariant
            slots@.len() == moves@.len(),
            forall|t: int| 0 <= t < moves@.len() ==> moves@[t].dest@.len() > 0,
            i <= slots@.len(),
            forall|j: int| 0 <= j < i ==> !(slots@[j] is Occupied),
        decreases slots@.len() - i,
    {
        match slots[i] {
            ParentSlot::Occupied => {
                let parent = match moves[i].dest.parent() {
                    Some(p) => p,
                    None => FsPath::empty(),
                };
                return Err(ImportError::ObstructedDirectorySlot { parent });
            },
            _ => {},
        }
        i += 1;
    }
    let mut cands: Vec<FsPath> = Vec::new();
    let ghost mut owners: Seq<int> = Seq::empty();
    let mut i: usize = 0;
    while i < slots.len()
        invariant
            slots@.len() == moves@.len(),
            forall|t: int| 0 <= t < moves@.len() ==> moves@[t].dest@.len() > 0,
            i <= slots@.len(),
            owners.len() == cands@.len(),
            forall|k: int| 0 <= k < cands@.len() ==> 0 <= #[trigger] owners[k] < i,
            forall|k: int|
                0 <= k < cands@.len() ==> dir_needed(moves@, slots@, group_dir@, #[trigger] owners[k]),
            forall|k: int|
                0 <= k < cands@.len() ==> cands@[k]@ == moves@[#[trigger] owners[k]].dest@.drop_last(),
            forall|t: int|
                0 <= t < i && #[trigger] dir_needed(moves@, slots@, group_dir@, t)
                    ==> contains_view(cands@, moves@[t].dest@.drop_last()),
        decreases slots@.len() - i,
    {
        let ghost cands_before = cands@;
        match slots[i] {
            ParentSlot::Missing => {
                let parent = match moves[i].dest.parent() {
                    Some(p) => p,
                    None => FsPath::empty(),
                };
                if !parent.same_as(group_dir) {
                    proof {
                        assert(dir_needed(moves@, slots@, group_dir@, i as int));
                    }
                    cands.push(parent);
                    proof {
                        owners = owners.push(i as int);
                        assert(owners[owners.len() - 1] == i as int);
                        assert(cands@[cands@.len() - 1]@ == moves@[i as int].dest@.drop_last());
                        assert(contains_view(cands@, moves@[i as int].dest@.drop_last()));
                    }
                } else {
                    proof {
                        assert(!dir_needed(moves@, slots@, group_dir@, i as int));
                    }
                }
            },
            _ => {
                proof {
                    assert(!dir_needed(moves@, slots@, group_dir@, i as int));
                }
            },
        }
        proof {
            assert forall|t: int|
                0 <= t < i + 1 && #[trigger] dir_needed(moves@, slots@, group_dir@, t) implies
                contains_view(cands@, moves@[t].dest@.drop_last()) by {
                if t < i {
                    let k = choose|k: int|
                        0 <= k < cands_before.len() && cands_before[k]@ == moves@[t].dest@.drop_last();
                    assert(cands@[k]@ == moves@[t].dest@.drop_last());
                }
            };
        }
        i += 1;
    }
    proof {
        assert forall|k: int| #![trigger cands@[k]] 0 <= k < cands@.len() implies exists|t: int|
            0 <= t < moves@.len() && #[trigger] dir_needed(moves@, slots@, group_dir@, t)
                && cands@[k]@ == moves@[t].dest@.drop_last() by {
            assert(dir_needed(moves@, slots@, group_dir@, owners[k]));
            assert(cands@[k]@ == moves@[owners[k]].dest@.drop_last());
        };
    }
    let ghost c0 = cands@;
    dedup_nested(&mut cands);
    let ghost c1 = cands@;
    sort_paths(&mut cands);
    proof {
        lemma_same_multiset_same_views(cands@, c1);
        assert forall|k: int| #![trigger cands@[k]] 0 <= k < cands@.len() implies exists|t: int|
            0 <= t < moves@.len() && #[trigger] dir_needed(moves@, slots@, group_dir@, t)
                && cands@[k]@ == moves@[t].dest@.drop_last() by {
            assert(contains_view(cands@, cands@[k]@));
            assert(contains_view(c1, cands@[k]@));
            let k1 = choose|k1: int| 0 <= k1 < c1.len() && c1[k1]@ == cands@[k]@;
            assert(contains_view(c0, c1[k1]@));
            let k0 = choose|k0: int| 0 <= k0 < c0.len() && c0[k0]@ == c1[k1]@;
        };
        assert forall|k: int, t: int|
            #![trigger cands@[k], moves@[t]]
            0 <= k < cands@.len() && 0 <= t < moves@.len() && dir_needed(
                moves@,
                slots@,
                group_dir@,
                t,
            ) implies !is_strict_prefix_of(moves@[t].dest@.drop_last(), cands@[k]@) by {
            let j0 = choose|j0: int| 0 <= j0 < c0.len() && c0[j0]@ == moves@[t].dest@.drop_last();
            assert(contains_view(cands@, cands@[k]@));
            assert(contains_view(c1, cands@[k]@));
            let k1 = choose|k1: int| 0 <= k1 < c1.len() && c1[k1]@ == cands@[k]@;
            assert(!is_strict_prefix_of(c0[j0]@, c1[k1]@));
        };
        assert forall|t: int|
            0 <= t < moves@.len() && #[trigger] dir_needed(moves@, slots@, group_dir@, t) implies
            covered_by(cands@, moves@[t].dest@.drop_last()) by {
            let j0 = choose|j0: int| 0 <= j0 < c0.len() && c0[j0]@ == moves@[t].dest@.drop_last();
            assert(covered_by(c1, c0[j0]@));
            let k1 = choose|k1: int| 0 <= k1 < c1.len() && is_prefix_of(c1[k1]@, c0[j0]@);
            assert(contains_view(c1, c1[k1]@));
            assert(contains_view(cands@, c1[k1]@));
            let k = choose|k: int| 0 <= k < cands@.len() && cands@[k]@ == c1[k1]@;
            assert(is_prefix_of(cands@[k]@, moves@[t].dest@.drop_last()));
        };
        assert(views_of(c1).no_duplicates()) by {
            assert forall|k1: int, k2: int|
                0 <= k1 < views_of(c1).len() && 0 <= k2 < views_of(c1).len() && k1 != k2 implies
                views_of(c1)[k1] != views_of(c1)[k2] by {
                assert(views_of(c1)[k1] == c1[k1]@);
                assert(views_of(c1)[k2] == c1[k2]@);
            };
        };
        views_of(c1).lemma_multiset_has_no_duplicates();
        views_of(cands@).lemma_multiset_has_no_duplicates_conv();
        assert forall|k1: int, k2: int| 0 <= k1 < k2 < cands@.len() implies cands@[k1]@
            != cands@[k2]@ by {
            assert(views_of(cands@)[k1] == cands@[k1]@);
            assert(views_of(cands@)[k2] == cands@[k2]@);
        };
        if forall|i: int| 0 <= i < slots@.len() ==> slots@[i] is Directory {
            if cands@.len() > 0 {
                assert(0 <= 0 < cands@.len());
                let t = choose|t: int|
                    0 <= t < moves@.len() && #[trigger] dir_needed(moves@, slots@, group_dir@, t)
                        && cands@[0]@ == moves@[t].dest@.drop_last();
                assert(slots@[t] is Directory);
                assert(false);
            }
        }
    }
    Ok(cands)
}

} // verus!
