//! A filesystem path modelled as its sequence of components.
//!
//! Canonical absolute paths and relative remainders are both held in the same
//! shape: an ordered list of component names, root first.  The view of a path
//! is the sequence of its components' character sequences.

use vstd::prelude::*;

verus! {

/// Does `pre` stand at the start of `p`, component for component?
///
/// A path is a prefix of itself; the empty path is a prefix of every path.
pub open spec fn is_prefix_of(pre: Seq<Seq<char>>, p: Seq<Seq<char>>) -> bool {
    pre.len() <= p.len() && pre == p.subrange(0, pre.len() as int)
}

/// `pre` is an ancestor of `p` and the two differ: `p` lies strictly below `pre`.
pub open spec fn is_strict_prefix_of(pre: Seq<Seq<char>>, p: Seq<Seq<char>>) -> bool {
    is_prefix_of(pre, p) && pre.len() < p.len()
}

/// A prefix of a prefix is a prefix.
pub proof fn lemma_prefix_transitive(a: Seq<Seq<char>>, b: Seq<Seq<char>>, c: Seq<Seq<char>>)
    requires
        is_prefix_of(a, b),
        is_prefix_of(b, c),
    ensures
        is_prefix_of(a, c),
{
    assert(a =~= c.subrange(0, a.len() as int)) by {
        assert(forall|i: int|
            0 <= i < a.len() ==> a[i] == b.subrange(0, a.len() as int)[i] && b[i] == c.subrange(
                0,
                b.len() as int,
            )[i]);
    }
}

/// A path, as the list of its components.
pub struct FsPath {
    comps: Vec<String>,
}

impl View for FsPath {
    type V = Seq<Seq<char>>;

    closed spec fn view(&self) -> Seq<Seq<char>> {
        self.comps.deep_view()
    }
}

impl Clone for FsPath {
    fn clone(&self) -> (r: FsPath)
        ensures
            r@ == self@,
    {
        let mut comps: Vec<String> = Vec::new();
        let mut i: usize = 0;
        while i < self.comps.len()
            invariant
                i <= self.comps.len(),
                comps.len() == i,
                forall|j: int| 0 <= j < i ==> comps@[j]@ == self.comps@[j]@,
            decreases self.comps.len() - i,
        {
            comps.push(self.comps[i].clone());
            i += 1;
        }
        let r = FsPath { comps };
        proof {
            assert(r@ =~= self@);
        }
        r
    }
}

impl FsPath {
    /// The path with no components at all.
    pub fn empty() -> (r: FsPath)
        ensures
            r@ == Seq::<Seq<char>>::empty(),
    {
        let r = FsPath { comps: Vec::new() };
        proof {
            assert(r@ =~= Seq::<Seq<char>>::empty());
        }
        r
    }

    /// Build a path from a ready-made component list.
    pub fn from_components(comps: Vec<String>) -> (r: FsPath)
        ensures
            r@ == comps.deep_view(),
    {
        FsPath { comps }
    }

    /// How many components the path has.
    pub fn depth(&self) -> (n: usize)
        ensures
            n == self@.len(),
    {
        self.comps.len()
    }

    /// The component at position `i`, counted from the root end.
    pub fn component(&self, i: usize) -> (r: &String)
        requires
            i < self@.len(),
        ensures
            r@ == self@[i as int],
    {
        &self.comps[i]
    }

    /// Append one component at the leaf end.
    pub fn push(&mut self, c: String)
        ensures
            final(self)@ == old(self)@.push(c@),
    {
        self.comps.push(c);
        proof {
            assert(self@ =~= old(self)@.push(c@));
        }
    }

    /// Do the two paths name the same location?
    pub fn same_as(&self, other: &FsPath) -> (r: bool)
        ensures
            r == (self@ == other@),
    {
        if self.comps.len() != other.comps.len() {
            return false;
        }
        let mut i: usize = 0;
        while i < self.comps.len()
            invariant
                self@.len() == other@.len(),
                i <= self@.len(),
                forall|j: int| 0 <= j < i ==> self@[j] == other@[j],
            decreases self@.len() - i,
        {
            if self.comps[i] != other.comps[i] {
                proof {
                    assert(self@[i as int] != other@[i as int]);
                }
                return false;
            }
            i += 1;
        }
        proof {
            assert(self@ =~= other@);
        }
        true
    }

    /// Does this path lie at or below `pre`?
    pub fn starts_with(&self, pre: &FsPath) -> (r: bool)
        ensures
            r == is_prefix_of(pre@, self@),
    {
        if pre.comps.len() > self.comps.len() {
            return false;
        }
        let mut i: usize = 0;
        while i < pre.comps.len()
            invariant
                pre@.len() <= self@.len(),
                i <= pre@.len(),
                forall|j: int| 0 <= j < i ==> pre@[j] == self@[j],
            decreases pre@.len() - i,
        {
            if self.comps[i] != pre.comps[i] {
                assert(!is_prefix_of(pre@, self@)) by {
                    assert(pre@[i as int] != self@.subrange(0, pre@.len() as int)[i as int]);
                }
                return false;
            }
            i += 1;
        }
        proof {
            assert(pre@ =~= self@.subrange(0, pre@.len() as int));
        }
        true
    }

    /// The remainder of this path below `pre`, if it lies at or below `pre`.
    pub fn strip_prefix(&self, pre: &FsPath) -> (r: Option<FsPath>)
        ensures
            match r {
                Some(rel) => is_prefix_of(pre@, self@) && rel@ == self@.skip(pre@.len() as int),
                None => !is_prefix_of(pre@, self@),
            },
    {
        if !self.starts_with(pre) {
            return None;
        }
        let mut comps: Vec<String> = Vec::new();
        let mut i: usize = pre.comps.len();
        while i < self.comps.len()
            invariant
                pre@.len() <= i <= self@.len(),
                comps.len() == i - pre@.len(),
                forall|j: int| 0 <= j < comps.len() ==> comps@[j]@ == self@[pre@.len() + j],
            decreases self@.len() - i,
        {
            comps.push(self.comps[i].clone());
            i += 1;
        }
        let rel = FsPath { comps };
        proof {
            assert(rel@ =~= self@.skip(pre@.len() as int));
        }
        Some(rel)
    }

    /// This path with `rel`'s components appended below it.
    pub fn join(&self, rel: &FsPath) -> (r: FsPath)
        ensures
            r@ == self@ + rel@,
    {
        let mut r = self.clone();
        let mut i: usize = 0;
        while i < rel.comps.len()
            invariant
                i <= rel@.len(),
                r@ == self@ + rel@.subrange(0, i as int),
            decreases rel@.len() - i,
        {
            let c = rel.comps[i].clone();
            proof {
                assert((self@ + rel@.subrange(0, i as int)).push(c@) =~= self@ + rel@.subrange(
                    0,
                    i as int + 1,
                ));
            }
            r.push(c);
            i += 1;
        }
        proof {
            assert(rel@.subrange(0, rel@.len() as int) =~= rel@);
        }
        r
    }

    /// The directory holding this path: all components but the last.
    pub fn parent(&self) -> (r: Option<FsPath>)
        ensures
            match r {
                Some(p) => self@.len() > 0 && p@ == self@.drop_last(),
                None => self@.len() == 0,
            },
    {
        if self.comps.len() == 0 {
            return None;
        }
        let mut comps: Vec<String> = Vec::new();
        let mut i: usize = 0;
        while i < self.comps.len() - 1
            invariant
                self@.len() > 0,
                i <= self@.len() - 1,
                comps.len() == i,
                forall|j: int| 0 <= j < i ==> comps@[j]@ == self@[j],
            decreases self@.len() - 1 - i,
        {
            comps.push(self.comps[i].clone());
            i += 1;
        }
        let p = FsPath { comps };
        proof {
            assert(p@ =~= self@.drop_last());
        }
        Some(p)
    }
}

} // verus!
