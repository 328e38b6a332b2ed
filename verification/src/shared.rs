//! The table of resources that a component shares with its peers.

use std::collections::HashMap;

use vstd::prelude::*;

use crate::handle::{fresh_handle, handle_byte};

verus! {

broadcast use vstd::std_specs::hash::group_hash_axioms;

/// The table refused a resource: it already holds as many as it may.
#[derive(Clone, Copy, Debug, PartialEq, Eq, Structural)]
pub struct AtCapacity {
    /// How many live handles the table may hold.
    pub capacity: usize,
}

/// A resource was not shared.
#[derive(Clone, Copy, Debug, PartialEq, Eq, Structural)]
pub struct RefusedHandle {
    /// The fresh handle that it would have been shared under.
    pub id: u128,
    pub reason: AtCapacity,
}

/// A table of shared resources exported by the component, with a capacity cap:
/// once it is reached, [`SharedResourceTable::try_insert`] refuses new resources
/// (0 = unbounded). It is a backstop against unbounded growth when a client keeps
/// acquiring handles without dropping them.
///
/// Every handle is bound to the scope it was minted in: the transport
/// connection, as the server identifies it. A lookup or a removal from any other
/// scope finds nothing, so a handle that leaks out of one connection is inert on
/// every other. Unscoped operations (`None`) only see unscoped handles.
#[derive(Debug)]
pub struct SharedResourceTable<R> {
    entries: HashMap<u128, (R, Option<u64>)>,
    capacity: usize,
    /// Handles inserted since the last [`Self::take_minted`].
    minted: Vec<u128>,
}

/// What a scope sees under a handle.
pub open spec fn lookup<R>(
    entries: Map<u128, (R, Option<u64>)>,
    scope: Option<u64>,
    id: u128,
) -> Option<R> {
    if entries.contains_key(id) && entries[id].1 == scope {
        Some(entries[id].0)
    } else {
        None
    }
}

impl<R> SharedResourceTable<R> {
    /// The live resources by handle, each with the scope it was minted in.
    pub closed spec fn entries(&self) -> Map<u128, (R, Option<u64>)> {
        self.entries@
    }

    /// How many live resources the table accepts (0 = unbounded).
    pub closed spec fn capacity(&self) -> usize {
        self.capacity
    }

    /// The handles inserted since they were last taken, oldest first.
    pub closed spec fn minted(&self) -> Seq<u128> {
        self.minted@
    }

    /// The table holds no more than it may.
    pub open spec fn wf(&self) -> bool {
        self.capacity() != 0 ==> self.entries().len() <= self.capacity()
    }

    /// Whether the table holds as many live resources as it may.
    pub open spec fn full(&self) -> bool {
        self.capacity() != 0 && self.entries().len() >= self.capacity()
    }

    /// Whether the table has no room for the handle.
    pub open spec fn refuses(&self, id: u128) -> bool {
        self.full() && !self.entries().contains_key(id)
    }

    /// A table that refuses more than `capacity` live resources (0 = unbounded).
    pub fn with_capacity(capacity: usize) -> (table: Self)
        ensures
            table.entries() == Map::<u128, (R, Option<u64>)>::empty(),
            table.capacity() == capacity,
            table.minted() == Seq::<u128>::empty(),
            table.wf(),
    {
        SharedResourceTable { entries: HashMap::new(), capacity, minted: Vec::new() }
    }

    /// Insert an exported resource under `scope`, refusing it once at capacity
    /// so that the invocation fails cleanly instead of the host growing memory
    /// without bound. A handle that is live already takes the new resource and
    /// the new scope.
    pub fn try_insert(&mut self, scope: Option<u64>, id: u128, resource: R) -> (r: Result<
        (),
        AtCapacity,
    >)
        ensures
            final(self).capacity() == old(self).capacity(),
            old(self).wf() ==> final(self).wf(),
            old(self).refuses(id) ==> {
                &&& r == Err::<(), AtCapacity>(AtCapacity { capacity: old(self).capacity() })
                &&& final(self).entries() == old(self).entries()
                &&& final(self).minted() == old(self).minted()
            },
            !old(self).refuses(id) ==> {
                &&& r == Ok::<(), AtCapacity>(())
                &&& final(self).entries() == old(self).entries().insert(id, (resource, scope))
                &&& final(self).minted() == old(self).minted().push(id)
            },
            r is Ok <==> (old(self).capacity() == 0 || old(self).entries().len() < old(
                self,
            ).capacity() || old(self).entries().contains_key(id)),
            r is Ok ==> final(self).entries() == old(self).entries().insert(id, (resource, scope)),
            r is Err ==> final(self).entries() == old(self).entries(),
    {
        if self.capacity != 0 && self.entries.len() >= self.capacity && !self.entries.contains_key(
            &id,
        ) {
            return Err(AtCapacity { capacity: self.capacity });
        }
        self.entries.insert(id, (resource, scope));
        self.minted.push(id);
        Ok(())
    }

    /// The handles minted since the last call: what a server fronting several
    /// tables records so it can find a handle's table again.
    pub fn take_minted(&mut self) -> (ids: Vec<u128>)
        ensures
            ids@ == old(self).minted(),
            final(self).minted() == Seq::<u128>::empty(),
            final(self).entries() == old(self).entries(),
            final(self).capacity() == old(self).capacity(),
    {
        let mut ids: Vec<u128> = Vec::new();
        std::mem::swap(&mut ids, &mut self.minted);
        ids
    }

    /// The exported resource for `id`, if it is live and was minted in `scope`.
    pub fn get(&self, scope: Option<u64>, id: &u128) -> (r: Option<&R>)
        ensures
            match lookup(self.entries(), scope, *id) {
                Some(resource) => r is Some && *r->Some_0 == resource,
                None => r is None,
            },
            r is Some <==> self.entries().contains_key(*id) && self.entries()[*id].1 == scope,
            r is Some ==> *r->Some_0 == self.entries()[*id].0,
    {
        match self.entries.get(id) {
            Some(entry) => if same_scope(entry.1, scope) {
                Some(&entry.0)
            } else {
                None
            },
            None => None,
        }
    }

    /// Remove and return the exported resource for `id`, if present in `scope`.
    /// The caller is responsible for dropping the returned resource: this only
    /// evicts the table entry.
    pub fn remove(&mut self, scope: Option<u64>, id: &u128) -> (r: Option<R>)
        ensures
            r == lookup(old(self).entries(), scope, *id),
            r is Some <==> old(self).entries().contains_key(*id) && old(self).entries()[*id].1
                == scope,
            r matches Some(resource) ==> resource == old(self).entries()[*id].0,
            r is Some ==> final(self).entries() == old(self).entries().remove(*id),
            r is None ==> final(self).entries() == old(self).entries(),
            final(self).capacity() == old(self).capacity(),
            final(self).minted() == old(self).minted(),
            old(self).wf() ==> final(self).wf(),
    {
        if self.get(scope, id).is_none() {
            return None;
        }
        match self.entries.remove(id) {
            Some(entry) => Some(entry.0),
            None => None,
        }
    }

    /// Remove whatever is live under `id`, in whichever scope.
    pub(crate) fn evict(&mut self, id: &u128)
        ensures
            final(self).entries() == old(self).entries().remove(*id),
            final(self).capacity() == old(self).capacity(),
            final(self).minted() == old(self).minted(),
            old(self).wf() ==> final(self).wf(),
    {
        self.entries.remove(id);
    }

    /// The number of live exported-resource handles in the table, across every
    /// scope.
    pub fn len(&self) -> (n: usize)
        ensures
            n == self.entries().len(),
            self.entries().dom().finite(),
    {
        self.entries.len()
    }

    /// Whether the table holds no live handles.
    pub fn is_empty(&self) -> (empty: bool)
        ensures
            empty == (self.entries() == Map::<u128, (R, Option<u64>)>::empty()),
    {
        proof {
            if self.entries().len() == 0 {
                self.entries().dom().lemma_len0_is_empty();
                assert(self.entries() =~= Map::empty());
            }
        }
        self.entries.len() == 0
    }

    /// Share a resource under a fresh handle, which is returned. The table
    /// refuses the resource as [`Self::try_insert`] does: never while it has
    /// room, and when it is full unless the handle happens to be live already.
    pub fn share(&mut self, scope: Option<u64>, resource: R) -> (r: Result<u128, RefusedHandle>)
        ensures
            final(self).capacity() == old(self).capacity(),
            old(self).wf() ==> final(self).wf(),
            match r {
                Ok(id) => {
                    &&& !old(self).refuses(id)
                    &&& handle_byte(id, 6) >> 4 == 7
                    &&& handle_byte(id, 8) >> 6 == 2
                    &&& final(self).entries() == old(self).entries().insert(id, (resource, scope))
                    &&& final(self).minted() == old(self).minted().push(id)
                },
                Err(e) => {
                    &&& old(self).refuses(e.id)
                    &&& handle_byte(e.id, 6) >> 4 == 7
                    &&& handle_byte(e.id, 8) >> 6 == 2
                    &&& e.reason == (AtCapacity { capacity: old(self).capacity() })
                    &&& final(self).entries() == old(self).entries()
                    &&& final(self).minted() == old(self).minted()
                },
            },
            r is Err ==> old(self).capacity() != 0 && old(self).entries().len() >= old(
                self,
            ).capacity(),
    {
        let id: u128 = fresh_handle();
        match self.try_insert(scope, id, resource) {
            Ok(()) => Ok(id),
            Err(reason) => Err(RefusedHandle { id, reason }),
        }
    }
}

impl<R> Default for SharedResourceTable<R> {
    /// An unbounded table.
    fn default() -> (table: Self)
        ensures
            table.entries() == Map::<u128, (R, Option<u64>)>::empty(),
            table.capacity() == 0,
            table.minted() == Seq::<u128>::empty(),
            table.wf(),
    {
        SharedResourceTable::with_capacity(0)
    }
}

/// Whether two scopes are the same.
fn same_scope(a: Option<u64>, b: Option<u64>) -> (same: bool)
    ensures
        same == (a == b),
{
    match (a, b) {
        (Some(a), Some(b)) => a == b,
        (None, None) => true,
        _ => false,
    }
}

/// A table refuses a handle if and only if it is bounded, holds as many live
/// handles as it may, and the handle is not one of them.
pub proof fn law_tables_refuse_only_at_capacity<R>(table: SharedResourceTable<R>, id: u128)
    ensures
        table.capacity() == 0 ==> !table.refuses(id),
        table.entries().len() < table.capacity() ==> !table.refuses(id),
        table.entries().contains_key(id) ==> !table.refuses(id),
        0 < table.capacity() <= table.entries().len() && !table.entries().contains_key(id)
            ==> table.refuses(id),
{
}

/// A scope sees a resource under a handle if and only if the resource stands under
/// that handle and was put there in that scope.
pub proof fn law_a_scope_sees_what_is_its_own<R>(
    entries: Map<u128, (R, Option<u64>)>,
    scope: Option<u64>,
    id: u128,
    resource: R,
)
    ensures
        lookup(entries, scope, id) == Some(resource) <==> entries.contains_pair(
            id,
            (resource, scope),
        ),
{
}

/// A resource that was inserted is found under its handle in the scope that it
/// was inserted in, and in no other; what stands under other handles stays.
pub proof fn law_handles_are_bound_to_their_scope<R>(
    entries: Map<u128, (R, Option<u64>)>,
    scope: Option<u64>,
    id: u128,
    resource: R,
    other_scope: Option<u64>,
    other_id: u128,
)
    ensures
        lookup(entries.insert(id, (resource, scope)), scope, id) == Some(resource),
        other_scope != scope ==> lookup(entries.insert(id, (resource, scope)), other_scope, id)
            is None,
        other_id != id ==> lookup(entries.insert(id, (resource, scope)), other_scope, other_id)
            == lookup(entries, other_scope, other_id),
{
}

/// A resource that was removed is found in no scope; what stands under other
/// handles stays.
pub proof fn law_removed_handles_are_dead<R>(
    entries: Map<u128, (R, Option<u64>)>,
    id: u128,
    scope: Option<u64>,
    other_id: u128,
)
    ensures
        lookup(entries.remove(id), scope, id) is None,
        other_id != id ==> lookup(entries.remove(id), scope, other_id) == lookup(
            entries,
            scope,
            other_id,
        ),
{
}

} // verus!
