use crate::cell::ID_LIMIT;
use crate::errors::PercolationError;
use std::collections::BTreeMap;
use vstd::prelude::*;

verus! {

/// A registry of groups: each live id owns the ordered list of items recorded for it.
///
/// Ids are handed out in increasing order from 1 and never reused; an id that was merged
/// away is retired for good.
#[derive(Debug)]
pub struct MergeList<T> {
    next_id: u32,
    groups: BTreeMap<u32, Vec<T>>,
}

impl<T> MergeList<T> {
    /// The live groups, each with its items in the order they were recorded.
    pub closed spec fn live(&self) -> Map<u32, Seq<T>> {
        self.groups@.map_values(|v: Vec<T>| v@)
    }

    /// The id that the next group will get.
    pub closed spec fn next(&self) -> u32 {
        self.next_id
    }

    /// Live ids lie in `1..next`, and `next` never passes the id capacity.
    pub open spec fn wf(&self) -> bool {
        &&& 1 <= self.next() <= ID_LIMIT
        &&& forall|k: u32| #[trigger] self.live().contains_key(k) ==> 1 <= k < self.next()
    }

    /// An id that was handed out and has since been merged away.
    pub open spec fn retired(&self, id: u32) -> bool {
        1 <= id < self.next() && !self.live().contains_key(id)
    }

    /// An empty registry whose first id is 1.
    pub fn new() -> (r: Self)
        ensures
            r.wf(),
            r.live() == Map::<u32, Seq<T>>::empty(),
            r.next() == 1,
    {
        let r = MergeList { next_id: 1, groups: BTreeMap::new() };
        assert(r.live() =~= Map::<u32, Seq<T>>::empty());
        r
    }

    /// The id that the next group will get.
    pub fn next_id(&self) -> (r: u32)
        ensures
            r == self.next(),
    {
        self.next_id
    }

    /// Whether `id` names a live group.
    pub fn contains(&self, id: u32) -> (r: bool)
        ensures
            r == self.live().contains_key(id),
    {
        self.groups.contains_key(&id)
    }

    /// The items of group `id`, if it is live.
    pub fn get(&self, id: u32) -> (r: Option<&Vec<T>>)
        ensures
            match r {
                Some(v) => self.live().contains_key(id) && v@ == self.live()[id],
                None => !self.live().contains_key(id),
            },
    {
        self.groups.get(&id)
    }

    /// Merges group `remove` into group `keep`: `keep`'s items first, then `remove`'s;
    /// `remove` is retired.
    ///
    /// Fails with `GroupNotFound`, changing nothing, unless both ids are live and distinct
    /// (merging a group into itself would retire the group that is kept).
    pub fn merge_group(&mut self, keep: u32, remove: u32) -> (r: Result<(), PercolationError>)
        requires
            old(self).wf(),
        ensures
            final(self).wf(),
            r is Ok <==> (keep != remove && old(self).live().contains_key(keep)
                && old(self).live().contains_key(remove)),
            r is Ok ==> final(self).next() == old(self).next() && final(self).live() == old(
                self,
            ).live().remove(remove).insert(keep, old(self).live()[keep] + old(self).live()[remove]),
            r is Err ==> r == Err::<(), _>(PercolationError::GroupNotFound) && *final(self) == *old(
                self,
            ),
    {
        if keep == remove || !self.groups.contains_key(&keep) || !self.groups.contains_key(
            &remove,
        ) {
            return Err(PercolationError::GroupNotFound);
        }
        let mut rm = match self.groups.remove(&remove) {
            Some(v) => v,
            None => return Err(PercolationError::GroupNotFound),
        };
        let mut up = match self.groups.remove(&keep) {
            Some(v) => v,
            None => return Err(PercolationError::GroupNotFound),
        };
        up.append(&mut rm);
        self.groups.insert(keep, up);
        assert(self.live() =~= old(self).live().remove(remove).insert(
            keep,
            old(self).live()[keep] + old(self).live()[remove],
        ));
        assert forall|k: u32| #[trigger] self.live().contains_key(k) implies 1 <= k
            < self.next() by {
            assert(old(self).live().contains_key(k));
        }
        Ok(())
    }

    /// Appends `value` to the items of group `key`.
    ///
    /// Fails with `GroupNotFound`, changing nothing, when `key` is not live.
    pub fn insert(&mut self, key: u32, value: T) -> (r: Result<(), PercolationError>)
        requires
            old(self).wf(),
        ensures
            final(self).wf(),
            r is Ok <==> old(self).live().contains_key(key),
            r is Ok ==> final(self).next() == old(self).next() && final(self).live() == old(
                self,
            ).live().insert(key, old(self).live()[key].push(value)),
            r is Err ==> r == Err::<(), _>(PercolationError::GroupNotFound) && *final(self) == *old(
                self,
            ),
    {
        if !self.groups.contains_key(&key) {
            return Err(PercolationError::GroupNotFound);
        }
        let mut list = match self.groups.remove(&key) {
            Some(v) => v,
            None => return Err(PercolationError::GroupNotFound),
        };
        list.push(value);
        self.groups.insert(key, list);
        assert(self.live() =~= old(self).live().insert(key, old(self).live()[key].push(value)));
        Ok(())
    }

    /// Starts a new group holding `value` alone and returns its id.
    ///
    /// When every 24-bit id has been handed out, fails with `ClusterIdOverflow` and
    /// changes nothing.
    pub fn create(&mut self, value: T) -> (r: Result<u32, PercolationError>)
        requires
            old(self).wf(),
        ensures
            final(self).wf(),
            old(self).next() < ID_LIMIT ==> r == Ok::<u32, PercolationError>(old(self).next())
                && final(self).next() == old(self).next() + 1 && final(self).live() == old(
                self,
            ).live().insert(old(self).next(), seq![value]),
            old(self).next() >= ID_LIMIT ==> r == Err::<u32, _>(
                PercolationError::ClusterIdOverflow,
            ) && *final(self) == *old(self),
    {
        if self.next_id >= ID_LIMIT {
            return Err(PercolationError::ClusterIdOverflow);
        }
        let id = self.next_id;
        let mut list: Vec<T> = Vec::new();
        list.push(value);
        self.groups.insert(id, list);
        self.next_id = id + 1;
        assert(self.live() =~= old(self).live().insert(id, seq![value]));
        Ok(id)
    }
}

impl<T> MergeList<T> {
    /// The live ids, in increasing order.
    pub fn ids(&self) -> (r: Vec<u32>)
        requires
            self.wf(),
        ensures
            forall|k: u32| self.live().contains_key(k) <==> r@.contains(k),
            forall|i: int, j: int| 0 <= i < j < r.len() ==> r@[i] < r@[j],
    {
        let mut r: Vec<u32> = Vec::new();
        let mut id: u32 = 1;
        while id < self.next_id
            invariant
                1 <= id <= self.next_id,
                self.wf(),
                forall|k: u32| (self.live().contains_key(k) && k < id) <==> r@.contains(k),
                forall|i: int| 0 <= i < r.len() ==> #[trigger] r@[i] < id,
                forall|i: int, j: int| 0 <= i < j < r.len() ==> r@[i] < r@[j],
            decreases self.next_id - id,
        {
            let ghost before = r@;
            if self.groups.contains_key(&id) {
                r.push(id);
            }
            proof {
                assert forall|k: u32| (self.live().contains_key(k) && k < id + 1) <==> r@.contains(
                    k,
                ) by {
                    if r@.contains(k) {
                        let i = choose|i: int| 0 <= i < r.len() && r@[i] == k;
                        if i < before.len() {
                            assert(before[i] == k);
                            assert(before.contains(k));
                        } else {
                            assert(k == id);
                        }
                    }
                    if self.live().contains_key(k) && k == id {
                        assert(r@[r.len() - 1] == k);
                    }
                    if self.live().contains_key(k) && k < id {
                        assert(before.contains(k));
                        let i = choose|i: int| 0 <= i < before.len() && before[i] == k;
                        assert(r@[i] == k);
                    }
                }
            }
            id = id + 1;
        }
        r
    }

    /// A walk over the live groups in increasing id order.
    pub fn iter(&self) -> (r: MergeListView<'_, T>)
        requires
            self.wf(),
        ensures
            r.wf(),
            r.source() == *self,
            r.position() == 0,
            forall|k: u32| self.live().contains_key(k) <==> r.order().contains(k),
            forall|i: int, j: int| 0 <= i < j < r.order().len() ==> r.order()[i] < r.order()[j],
    {
        let ids = self.ids();
        assert forall|i: int| 0 <= i < ids.len() implies self.live().contains_key(
            #[trigger] ids@[i],
        ) by {
            assert(ids@.contains(ids@[i]));
        }
        MergeListView { index: 0, ids, view: self }
    }
}

/// A walk over the groups of a registry: each live id with its items, in increasing id
/// order.
pub struct MergeListView<'i, T> {
    index: usize,
    ids: Vec<u32>,
    view: &'i MergeList<T>,
}

impl<'i, T> MergeListView<'i, T> {
    /// The ids visited, in order.
    pub closed spec fn order(&self) -> Seq<u32> {
        self.ids@
    }

    /// How many groups have been handed out.
    pub closed spec fn position(&self) -> int {
        self.index as int
    }

    /// The registry walked over.
    pub closed spec fn source(&self) -> MergeList<T> {
        *self.view
    }

    /// The position lies within the walk, and every id of the walk is live.
    pub closed spec fn wf(&self) -> bool {
        &&& self.index <= self.ids.len()
        &&& forall|i: int| 0 <= i < self.ids.len() ==> self.view.live().contains_key(#[trigger] self.ids@[i])
    }

    /// The next group, with its id, or `None` once all have been handed out.
    pub fn next(&mut self) -> (r: Option<(u32, &'i Vec<T>)>)
        requires
            old(self).wf(),
        ensures
            final(self).wf(),
            final(self).source() == old(self).source(),
            final(self).order() == old(self).order(),
            old(self).position() < old(self).order().len() ==> {
                &&& final(self).position() == old(self).position() + 1
                &&& match r {
                    Some(g) => g.0 == old(self).order()[old(self).position()] && g.1@
                        == old(self).source().live()[g.0],
                    None => false,
                }
            },
            old(self).position() >= old(self).order().len() ==> r is None && final(self).position()
                == old(self).position(),
    {
        if self.index >= self.ids.len() {
            return None;
        }
        let id = self.ids[self.index];
        self.index = self.index + 1;
        match self.view.groups.get(&id) {
            Some(v) => Some((id, v)),
            None => None,
        }
    }
}

impl<T> Default for MergeList<T> {
    fn default() -> (r: Self)
        ensures
            r.wf(),
            r.live() == Map::<u32, Seq<T>>::empty(),
            r.next() == 1,
    {
        MergeList::new()
    }
}

} // verus!
