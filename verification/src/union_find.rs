//! The disjoint-set structure, held as linked nodes: each node carries
//! a value and either points to a parent or is the canonical
//! representative of its set.

use vstd::prelude::*;

verus! {

#[derive(Debug)]
pub struct UnionFind<T> {
    pub value: T,
    pub parent: Option<Box<UnionFind<T>>>,
    pub rank: u32,
}

impl<T: Clone> Clone for UnionFind<T> {
    fn clone(&self) -> (r: Self)
        decreases *self,
    {
        UnionFind {
            value: self.value.clone(),
            parent: match &self.parent {
                Some(b) => Some(Box::new((**b).clone())),
                None => None,
            },
            rank: self.rank,
        }
    }
}

/// The canonical node at the end of the parent chain.
pub open spec fn sp_root<T>(u: UnionFind<T>) -> UnionFind<T>
    decreases u,
{
    match u.parent {
        None => u,
        Some(b) => sp_root(*b),
    }
}

impl<T> UnionFind<T> {
    /// Encapsulates a value into a fresh canonical node.
    pub fn make_set(value: T) -> (r: UnionFind<T>)
        ensures
            r.value == value,
            r.parent matches None,
            r.rank == 0,
    {
        UnionFind { value, parent: None, rank: 0 }
    }

    /// Follows the parent chain to the canonical node of this set.
    pub fn find(self) -> (r: UnionFind<T>)
        ensures
            r == sp_root(self),
            r.parent matches None,
        decreases self,
    {
        let mut this = self;
        let parent = match this.parent {
            Some(thing) => (*thing).find(),
            None => {
                return this;
            },
        };
        this.parent = Some(Box::new(parent));
        match this.parent {
            Some(b) => *b,
            None => vstd::pervasive::unreached(),
        }
    }

    /// Unions this node's set with `other`'s, given `other`'s
    /// canonical node: the root of lower rank is attached beneath the
    /// other, and on a rank tie `other` is attached beneath this
    /// node's root with its rank raised by one.
    pub fn union(self, other: &mut UnionFind<T>, other_root: UnionFind<T>)
        requires
            sp_root(self).rank < u32::MAX,
        ensures
            sp_root(self).rank < other_root.rank ==> *final(other) == *old(other),
            sp_root(self).rank > other_root.rank ==> final(other).value == old(other).value
                && final(other).rank == old(other).rank && (final(other).parent matches Some(b)
                && *b == sp_root(self)),
            sp_root(self).rank == other_root.rank ==> final(other).value == old(other).value
                && final(other).rank == old(other).rank && (final(other).parent matches Some(b)
                && (*b).value == sp_root(self).value && (*b).parent == sp_root(self).parent
                && (*b).rank == sp_root(self).rank + 1),
    {
        let mut my_root = self.find();
        if my_root.rank < other_root.rank {
            // the receiver was taken by value, so attaching it beneath
            // the other root is not visible to the caller
        } else if my_root.rank > other_root.rank {
            other.parent = Some(Box::new(my_root));
        } else {
            my_root.rank = my_root.rank + 1;
            other.parent = Some(Box::new(my_root));
        }
    }
}

} // verus!
