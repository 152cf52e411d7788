//! The instance registry: per logical point-cloud object, the GPU-side
//! shadow record holding its current and previous world transform (for
//! motion vectors), its point count, and its arena allocation.
//!
//! Each frame the registry is reconciled against the externally supplied set
//! of currently visible objects: records whose object is gone are removed
//! and their allocation freed immediately, surviving records take the new
//! transform (the old current becomes the previous), and newly visible
//! objects get a fresh record with no allocation yet, marked changed so the
//! upload stage allocates on the same frame.

use vstd::prelude::*;
use vstd::multiset::Multiset;
use vstd::pervasive::VecAdditionalExecFns;

use crate::arena::{Allocation, PointArena};
use crate::sample::{Affine3, PointSample};

verus! {

/// The GPU-side shadow of one visible point-cloud object. `changed` marks
/// the record for the upload stage; `version` is the identity of the point
/// sequence last seen, so a new sequence is detected without a deep
/// compare.
#[derive(Clone, Copy, Debug, PartialEq, Eq, Structural)]
pub struct InstanceRecord {
    pub world_from_local: Affine3,
    pub previous_world_from_local: Affine3,
    pub point_count: u32,
    pub allocation: Option<Allocation>,
    pub version: u64,
    pub changed: bool,
}

/// One logical point-cloud object as the outside collaborators hand it in:
/// a stable integer handle, the world transform for this frame, the point
/// sequence (a frame-consistent snapshot of the shared copy-on-write
/// sequence), and the sequence's identity. A producer that appends points
/// hands in a new version; an unchanged version promises an unchanged
/// sequence.
pub struct PointCloudObject {
    pub id: u64,
    pub transform: Affine3,
    pub points: Vec<PointSample>,
    pub version: u64,
}

/// The set of ids contains `id`.
pub open spec fn contains_id(objs: Seq<PointCloudObject>, id: u64) -> bool {
    exists|i: int| 0 <= i < objs.len() && (#[trigger] objs[i]).id == id
}

/// Handles are stable and unique: no two objects share an id.
pub open spec fn ids_unique(objs: Seq<PointCloudObject>) -> bool {
    forall|i: int, j: int|
        0 <= i < j < objs.len() ==> (#[trigger] objs[i]).id != (#[trigger] objs[j]).id
}

/// A well-formed frame input: unique handles and point counts that fit the
/// arena's 32-bit sizing.
pub open spec fn objects_wf(objs: Seq<PointCloudObject>) -> bool {
    &&& ids_unique(objs)
    &&& forall|i: int| 0 <= i < objs.len() ==> (#[trigger] objs[i]).points@.len() <= u32::MAX
}

/// The allocations held by a list of records, in entry order.
pub open spec fn held_allocs(s: Seq<(u64, InstanceRecord)>) -> Seq<Allocation>
    decreases s.len(),
{
    if s.len() == 0 {
        Seq::<Allocation>::empty()
    } else {
        match s[0].1.allocation {
            Some(a) => seq![a] + held_allocs(s.drop_first()),
            None => held_allocs(s.drop_first()),
        }
    }
}

pub proof fn lemma_held_allocs_append(s: Seq<(u64, InstanceRecord)>, t: Seq<(u64, InstanceRecord)>)
    ensures
        held_allocs(s + t) == held_allocs(s) + held_allocs(t),
    decreases s.len(),
{
    if s.len() == 0 {
        assert(s + t =~= t);
        assert(held_allocs(s) + held_allocs(t) =~= held_allocs(t));
    } else {
        assert((s + t).drop_first() =~= s.drop_first() + t);
        lemma_held_allocs_append(s.drop_first(), t);
        match s[0].1.allocation {
            Some(a) => {
                assert(seq![a] + (held_allocs(s.drop_first()) + held_allocs(t)) =~= (seq![a]
                    + held_allocs(s.drop_first())) + held_allocs(t));
            },
            None => {},
        }
    }
}

pub proof fn lemma_held_allocs_one(e: (u64, InstanceRecord))
    ensures
        held_allocs(seq![e]) == match e.1.allocation {
            Some(a) => seq![a],
            None => Seq::<Allocation>::empty(),
        },
{
    assert(seq![e].drop_first() =~= Seq::<(u64, InstanceRecord)>::empty());
    assert(held_allocs(Seq::<(u64, InstanceRecord)>::empty()) =~= Seq::<Allocation>::empty());
    match e.1.allocation {
        Some(a) => {
            assert(held_allocs(seq![e]) == seq![a] + held_allocs(seq![e].drop_first()));
            assert(seq![a] + held_allocs(seq![e].drop_first()) =~= seq![a]);
        },
        None => {
            assert(held_allocs(seq![e]) == held_allocs(seq![e].drop_first()));
        },
    }
}

pub proof fn lemma_held_allocs_push(s: Seq<(u64, InstanceRecord)>, e: (u64, InstanceRecord))
    ensures
        held_allocs(s.push(e)) == match e.1.allocation {
            Some(a) => held_allocs(s).push(a),
            None => held_allocs(s),
        },
{
    assert(s.push(e) =~= s + seq![e]);
    lemma_held_allocs_append(s, seq![e]);
    lemma_held_allocs_one(e);
    match e.1.allocation {
        Some(a) => {
            assert(held_allocs(s) + seq![a] =~= held_allocs(s).push(a));
        },
        None => {
            assert(held_allocs(s) + Seq::<Allocation>::empty() =~= held_allocs(s));
        },
    }
}

/// Updating an entry without touching its allocation leaves the held
/// allocations unchanged.
pub proof fn lemma_held_allocs_update_same(
    s: Seq<(u64, InstanceRecord)>,
    i: int,
    e: (u64, InstanceRecord),
)
    requires
        0 <= i < s.len(),
        e.1.allocation == s[i].1.allocation,
    ensures
        held_allocs(s.update(i, e)) == held_allocs(s),
{
    assert(s =~= (s.subrange(0, i) + seq![s[i]]) + s.subrange(i + 1, s.len() as int));
    assert(s.update(i, e) =~= (s.subrange(0, i) + seq![e]) + s.subrange(i + 1, s.len() as int));
    lemma_held_allocs_append(s.subrange(0, i) + seq![s[i]], s.subrange(i + 1, s.len() as int));
    lemma_held_allocs_append(s.subrange(0, i), seq![s[i]]);
    lemma_held_allocs_append(s.subrange(0, i) + seq![e], s.subrange(i + 1, s.len() as int));
    lemma_held_allocs_append(s.subrange(0, i), seq![e]);
    lemma_held_allocs_one(s[i]);
    lemma_held_allocs_one(e);
}

/// The registry itself: an association list from object handle to record,
/// with unique keys. Entry order is the stable within-frame order the batch
/// assembler walks.
pub struct InstanceRegistry {
    pub entries: Vec<(u64, InstanceRecord)>,
}

impl InstanceRegistry {
    pub open spec fn keys_unique(self) -> bool {
        forall|i: int, j: int|
            0 <= i < j < self.entries@.len() ==> (#[trigger] self.entries@[i]).0 != (
            #[trigger] self.entries@[j]).0
    }

    pub open spec fn spec_contains(self, id: u64) -> bool {
        exists|i: int| 0 <= i < self.entries@.len() && (#[trigger] self.entries@[i]).0 == id
    }

    pub open spec fn index_of_key(self, id: u64) -> int {
        choose|i: int| 0 <= i < self.entries@.len() && (#[trigger] self.entries@[i]).0 == id
    }

    /// The record for a handle, if the registry holds one.
    pub open spec fn spec_get(self, id: u64) -> Option<InstanceRecord> {
        if self.spec_contains(id) {
            Some(self.entries@[self.index_of_key(id)].1)
        } else {
            None
        }
    }

    /// With unique keys, the entry at any index with a matching key is the
    /// record `spec_get` denotes.
    pub proof fn lemma_get_at(self, i: int)
        requires
            self.keys_unique(),
            0 <= i < self.entries@.len(),
        ensures
            self.spec_contains(self.entries@[i].0),
            self.spec_get(self.entries@[i].0) == Some(self.entries@[i].1),
            self.index_of_key(self.entries@[i].0) == i,
    {
        let id = self.entries@[i].0;
        assert(self.spec_contains(id));
        let j = self.index_of_key(id);
        if i < j {
            assert(self.entries@[i].0 != self.entries@[j].0);
        } else if j < i {
            assert(self.entries@[j].0 != self.entries@[i].0);
        }
    }

    /// An empty registry: no objects are tracked yet.
    pub fn new() -> (reg: InstanceRegistry)
        ensures
            reg.entries@ =~= Seq::<(u64, InstanceRecord)>::empty(),
            reg.keys_unique(),
    {
        InstanceRegistry { entries: Vec::new() }
    }

    /// Index of the entry for a handle, if the registry holds one.
    pub fn find_entry(&self, id: u64) -> (r: Option<usize>)
        ensures
            match r {
                Some(i) => i < self.entries@.len() && self.entries@[i as int].0 == id,
                None => !self.spec_contains(id),
            },
    {
        let mut i: usize = 0;
        while i < self.entries.len()
            invariant
                i <= self.entries@.len(),
                forall|j: int| 0 <= j < i ==> (#[trigger] self.entries@[j]).0 != id,
            decreases self.entries@.len() - i,
        {
            if self.entries[i].0 == id {
                return Some(i);
            }
            i = i + 1;
        }
        None
    }
}

/// Index of the object with a handle, if the set holds one.
pub fn find_object(objects: &Vec<PointCloudObject>, id: u64) -> (r: Option<usize>)
    ensures
        match r {
            Some(i) => i < objects@.len() && objects@[i as int].id == id,
            None => !contains_id(objects@, id),
        },
{
    let mut i: usize = 0;
    while i < objects.len()
        invariant
            i <= objects@.len(),
            forall|j: int| 0 <= j < i ==> (#[trigger] objects@[j]).id != id,
        decreases objects@.len() - i,
    {
        if objects[i].id == id {
            return Some(i);
        }
        i = i + 1;
    }
    None
}

/// The registry and the arena agree: the arena's live allocations are
/// exactly the allocations held by the registry's records.
pub open spec fn synced(reg: InstanceRegistry, arena: PointArena) -> bool {
    arena.live@.to_multiset() == held_allocs(reg.entries@).to_multiset()
}

/// Replacing an entry by one with the same key keeps the keys unique and
/// changes what the registry holds for that key alone.
pub proof fn lemma_update_entry(
    pre: InstanceRegistry,
    post: InstanceRegistry,
    i: int,
    e: (u64, InstanceRecord),
)
    requires
        pre.keys_unique(),
        0 <= i < pre.entries@.len(),
        e.0 == pre.entries@[i].0,
        post.entries@ == pre.entries@.update(i, e),
    ensures
        post.keys_unique(),
        post.spec_contains(e.0),
        post.spec_get(e.0) == Some(e.1),
        forall|id: u64| id != e.0 ==> (#[trigger] post.spec_contains(id) <==> pre.spec_contains(id)),
        forall|id: u64| id != e.0 ==> #[trigger] post.spec_get(id) == pre.spec_get(id),
{
    assert forall|i1: int, i2: int| 0 <= i1 < i2 < post.entries@.len() implies (
    #[trigger] post.entries@[i1]).0 != (#[trigger] post.entries@[i2]).0 by {
        assert(pre.entries@[i1].0 != pre.entries@[i2].0);
    }
    post.lemma_get_at(i);
    assert forall|id: u64| id != e.0 implies (#[trigger] post.spec_contains(id)
        <==> pre.spec_contains(id)) by {
        if pre.spec_contains(id) {
            let j = pre.index_of_key(id);
            assert(pre.entries@[j].0 == id);
            assert(post.entries@[j].0 == id);
            assert(post.spec_contains(id));
        }
        if post.spec_contains(id) {
            let j = post.index_of_key(id);
            assert(post.entries@[j].0 == id);
            assert(pre.entries@[j].0 == id);
            assert(pre.spec_contains(id));
        }
    }
    assert forall|id: u64| id != e.0 implies #[trigger] post.spec_get(id) == pre.spec_get(id) by {
        if pre.spec_contains(id) {
            let j = pre.index_of_key(id);
            assert(pre.entries@[j].0 == id);
            assert(j != i);
            pre.lemma_get_at(j);
            assert(post.entries@[j] == pre.entries@[j]);
            post.lemma_get_at(j);
        }
    }
}

/// Appending an entry with a fresh key keeps the keys unique and changes
/// what the registry holds for that key alone.
pub proof fn lemma_push_entry(pre: InstanceRegistry, post: InstanceRegistry, e: (u64, InstanceRecord))
    requires
        pre.keys_unique(),
        !pre.spec_contains(e.0),
        post.entries@ == pre.entries@.push(e),
    ensures
        post.keys_unique(),
        post.spec_contains(e.0),
        post.spec_get(e.0) == Some(e.1),
        forall|id: u64| id != e.0 ==> (#[trigger] post.spec_contains(id) <==> pre.spec_contains(id)),
        forall|id: u64| id != e.0 ==> #[trigger] post.spec_get(id) == pre.spec_get(id),
{
    assert forall|i1: int, i2: int| 0 <= i1 < i2 < post.entries@.len() implies (
    #[trigger] post.entries@[i1]).0 != (#[trigger] post.entries@[i2]).0 by {
        if i2 < pre.entries@.len() {
            assert(pre.entries@[i1].0 != pre.entries@[i2].0);
        } else {
            assert(pre.entries@[i1].0 != e.0);
        }
    }
    post.lemma_get_at(pre.entries@.len() as int);
    assert forall|id: u64| id != e.0 implies (#[trigger] post.spec_contains(id)
        <==> pre.spec_contains(id)) by {
        if pre.spec_contains(id) {
            let j = pre.index_of_key(id);
            assert(pre.entries@[j].0 == id);
            assert(post.entries@[j].0 == id);
            assert(post.spec_contains(id));
        }
        if post.spec_contains(id) {
            let j = post.index_of_key(id);
            assert(post.entries@[j].0 == id);
            assert(j < pre.entries@.len());
            assert(pre.entries@[j].0 == id);
            assert(pre.spec_contains(id));
        }
    }
    assert forall|id: u64| id != e.0 implies #[trigger] post.spec_get(id) == pre.spec_get(id) by {
        if pre.spec_contains(id) {
            let j = pre.index_of_key(id);
            assert(pre.entries@[j].0 == id);
            pre.lemma_get_at(j);
            assert(post.entries@[j] == pre.entries@[j]);
            post.lemma_get_at(j);
        }
    }
}

/// The singleton sequence's multiset: exactly one occurrence of its element.
pub proof fn lemma_singleton_multiset(a: Allocation)
    ensures
        seq![a].to_multiset() =~= Multiset::<Allocation>::empty().insert(a),
{
    broadcast use vstd::seq_lib::group_to_multiset_ensures;

    assert(seq![a] =~= Seq::<Allocation>::empty().push(a));
    assert forall|x: Allocation| !Seq::<Allocation>::empty().contains(x) by {}
    assert forall|x: Allocation| Seq::<Allocation>::empty().to_multiset().count(x) == 0 by {
        assert(!Seq::<Allocation>::empty().contains(x));
    }
    assert(Seq::<Allocation>::empty().to_multiset() =~= Multiset::<Allocation>::empty());
}

/// What the record reconcile leaves for object `o`: the current transform
/// is the object's, the old current became the previous (or both are the
/// object's, when it is newly visible), the point count and version follow
/// the object, the allocation is carried over untouched (none for a new
/// record), and the record is marked changed exactly when the object is
/// new, its point sequence's identity moved, or it still lacks the
/// allocation its points need.
pub open spec fn reconciled_record(
    pre: InstanceRegistry,
    post: InstanceRegistry,
    o: PointCloudObject,
) -> bool {
    match post.spec_get(o.id) {
        Some(r) => {
            &&& r.world_from_local == o.transform
            &&& r.point_count == o.points@.len()
            &&& r.version == o.version
            &&& match pre.spec_get(o.id) {
                Some(p) => {
                    &&& r.previous_world_from_local == p.world_from_local
                    &&& r.allocation == p.allocation
                    &&& r.changed == (p.version != o.version || (p.allocation is None
                        && o.points@.len() > 0))
                },
                None => {
                    &&& r.previous_world_from_local == o.transform
                    &&& r.allocation is None
                    &&& r.changed == true
                },
            }
        },
        None => false,
    }
}

impl InstanceRegistry {
    /// Remove every record whose object is no longer in the live set and
    /// free its allocation immediately: nothing may leak past this pass.
    fn evict_missing(&mut self, arena: &mut PointArena, objects: &Vec<PointCloudObject>)
        requires
            old(self).keys_unique(),
            old(arena).wf(),
            synced(*old(self), *old(arena)),
        ensures
            final(self).keys_unique(),
            final(arena).wf(),
            synced(*final(self), *final(arena)),
            final(arena).capacity == old(arena).capacity,
            final(arena).store@ == old(arena).store@,
            forall|id: u64| #[trigger]
                final(self).spec_contains(id) <==> (old(self).spec_contains(id) && contains_id(
                    objects@,
                    id,
                )),
            forall|id: u64| #[trigger]
                final(self).spec_contains(id) ==> final(self).spec_get(id) == old(self).spec_get(
                    id,
                ),
    {
        broadcast use vstd::seq_lib::group_to_multiset_ensures;
        broadcast use vstd::multiset::group_multiset_axioms;

        let ghost entries0 = self.entries@;
        let mut kept: Vec<(u64, InstanceRecord)> = Vec::new();
        let mut i: usize = 0;
        proof {
            assert(entries0.skip(0) =~= entries0);
        }
        while i < self.entries.len()
            invariant
                i <= entries0.len(),
                self.entries@ == entries0,
                old(self).entries@ == entries0,
                old(self).keys_unique(),
                arena.wf(),
                arena.capacity == old(arena).capacity,
                arena.store@ == old(arena).store@,
                forall|k: int|
                    0 <= k < kept@.len() ==> exists|j: int|
                        0 <= j < i && #[trigger] kept@[k] == entries0[j],
                forall|k1: int, k2: int|
                    0 <= k1 < k2 < kept@.len() ==> (#[trigger] kept@[k1]).0 != (
                    #[trigger] kept@[k2]).0,
                forall|k: int| 0 <= k < kept@.len() ==> contains_id(objects@, (#[trigger] kept@[k]).0),
                forall|j: int|
                    0 <= j < i && contains_id(objects@, (#[trigger] entries0[j]).0) ==> exists|k: int|
                        0 <= k < kept@.len() && kept@[k] == entries0[j],
                arena.live@.to_multiset() == held_allocs(kept@).to_multiset().add(
                    held_allocs(entries0.skip(i as int)).to_multiset(),
                ),
            decreases entries0.len() - i,
        {
            let e = self.entries[i];
            proof {
                assert(entries0.skip(i as int).drop_first() =~= entries0.skip(i as int + 1));
                assert(entries0.skip(i as int)[0] == entries0[i as int]);
            }
            match find_object(objects, e.0) {
                Some(_) => {
                    let ghost kept_before = kept@;
                    proof {
                        lemma_held_allocs_push(kept@, e);
                        match e.1.allocation {
                            Some(a) => {
                                lemma_singleton_multiset(a);
                                assert(held_allocs(entries0.skip(i as int)) == seq![a]
                                    + held_allocs(entries0.skip(i as int + 1)));
                                assert(held_allocs(kept@.push(e)) =~= held_allocs(kept@).push(a));
                                vstd::seq_lib::to_multiset_build(held_allocs(kept@), a);
                                vstd::seq_lib::lemma_multiset_commutative(
                                    seq![a],
                                    held_allocs(entries0.skip(i as int + 1)),
                                );
                                assert(seq![a].to_multiset().add(
                                    held_allocs(entries0.skip(i as int + 1)).to_multiset(),
                                ) =~= held_allocs(entries0.skip(i as int
                                    + 1)).to_multiset().insert(a));
                                assert(held_allocs(kept@.push(e)).to_multiset().add(
                                    held_allocs(entries0.skip(i as int + 1)).to_multiset(),
                                ) =~= held_allocs(kept@).to_multiset().add(
                                    held_allocs(entries0.skip(i as int)).to_multiset(),
                                ));
                            },
                            None => {
                                assert(held_allocs(entries0.skip(i as int)) == held_allocs(
                                    entries0.skip(i as int + 1),
                                ));
                                assert(held_allocs(kept@.push(e)) == held_allocs(kept@));
                            },
                        }
                    }
                    kept.push(e);
                    proof {
                        assert(kept@ == kept_before.push(e));
                        assert forall|k: int| 0 <= k < kept@.len() implies exists|j: int|
                            0 <= j < i + 1 && #[trigger] kept@[k] == entries0[j] by {
                            if k < kept_before.len() {
                                let j = choose|j: int|
                                    0 <= j < i && kept_before[k] == entries0[j];
                                assert(kept@[k] == entries0[j]);
                            } else {
                                assert(kept@[k] == entries0[i as int]);
                            }
                        }
                        assert forall|k1: int, k2: int|
                            0 <= k1 < k2 < kept@.len() implies (#[trigger] kept@[k1]).0 != (
                        #[trigger] kept@[k2]).0 by {
                            if k2 == kept_before.len() {
                                let j = choose|j: int|
                                    0 <= j < i && kept_before[k1] == entries0[j];
                                assert(entries0[j].0 != entries0[i as int].0);
                            }
                        }
                        assert forall|j: int|
                            0 <= j < i + 1 && contains_id(objects@, (#[trigger] entries0[j]).0)
                            implies exists|k: int|
                            0 <= k < kept@.len() && kept@[k] == entries0[j] by {
                            if j < i {
                                let k = choose|k: int|
                                    0 <= k < kept_before.len() && kept_before[k] == entries0[j];
                                assert(kept@[k] == entries0[j]);
                            } else {
                                assert(kept@[kept@.len() - 1] == entries0[i as int]);
                            }
                        }
                    }
                },
                None => {
                    match e.1.allocation {
                        Some(a) => {
                            proof {
                                lemma_singleton_multiset(a);
                                assert(held_allocs(entries0.skip(i as int)) == seq![a]
                                    + held_allocs(entries0.skip(i as int + 1)));
                                assert((seq![a] + held_allocs(entries0.skip(i as int
                                    + 1))).to_multiset() =~= held_allocs(entries0.skip(i as int
                                    + 1)).to_multiset().insert(a)) by {
                                    vstd::seq_lib::lemma_multiset_commutative(
                                        seq![a],
                                        held_allocs(entries0.skip(i as int + 1)),
                                    );
                                }
                                assert(seq![a].to_multiset().add(
                                    held_allocs(entries0.skip(i as int + 1)).to_multiset(),
                                ) =~= held_allocs(entries0.skip(i as int
                                    + 1)).to_multiset().insert(a));
                                assert(arena.live@.to_multiset().count(a) > 0);
                                arena.live@.to_multiset_ensures();
                                assert(arena.live@.contains(a));
                            }
                            arena.free(a);
                            proof {
                                assert(arena.live@.to_multiset() =~= held_allocs(
                                    kept@,
                                ).to_multiset().add(
                                    held_allocs(entries0.skip(i as int + 1)).to_multiset(),
                                ));
                            }
                        },
                        None => {
                            proof {
                                assert(held_allocs(entries0.skip(i as int)) == held_allocs(
                                    entries0.skip(i as int + 1),
                                ));
                            }
                        },
                    }
                    proof {
                        assert(!contains_id(objects@, entries0[i as int].0));
                        assert forall|j: int|
                            0 <= j < i + 1 && contains_id(objects@, (#[trigger] entries0[j]).0)
                            implies exists|k: int|
                            0 <= k < kept@.len() && kept@[k] == entries0[j] by {
                            assert(j < i);
                        }
                    }
                },
            }
            i = i + 1;
        }
        proof {
            assert(entries0.skip(entries0.len() as int) =~= Seq::<(u64, InstanceRecord)>::empty());
            assert(held_allocs(Seq::<(u64, InstanceRecord)>::empty())
                =~= Seq::<Allocation>::empty());
            assert forall|x: Allocation|
                Seq::<Allocation>::empty().to_multiset().count(x) == 0 by {
                assert(!Seq::<Allocation>::empty().contains(x));
            }
            assert(held_allocs(entries0.skip(entries0.len() as int)).to_multiset()
                =~= Multiset::<Allocation>::empty());
        }
        let ghost keptv = kept@;
        proof {
            assert(arena.live@.to_multiset() =~= held_allocs(keptv).to_multiset());
        }
        self.entries = kept;
        proof {
            assert(self.entries@ == keptv);
            assert forall|id: u64| #[trigger]
                self.spec_contains(id) implies (old(self).spec_contains(id) && contains_id(
                objects@,
                id,
            ) && self.spec_get(id) == old(self).spec_get(id)) by {
                let k = self.index_of_key(id);
                assert(self.entries@[k].0 == id);
                let j = choose|j: int| 0 <= j < entries0.len() && self.entries@[k] == entries0[j];
                assert(entries0[j].0 == id);
                assert(old(self).spec_contains(id));
                self.lemma_get_at(k);
                old(self).lemma_get_at(j);
            }
            assert forall|id: u64|
                old(self).spec_contains(id) && contains_id(objects@, id) implies #[trigger] self.spec_contains(
                id,
            ) by {
                let j = old(self).index_of_key(id);
                assert(entries0[j].0 == id);
                let k = choose|k: int| 0 <= k < self.entries@.len() && self.entries@[k] == entries0[j];
                assert(self.entries@[k].0 == id);
            }
        }
    }
}

impl InstanceRegistry {
    /// Apply the live set to the surviving records: transforms roll over
    /// (previous takes the old current), point count and version follow the
    /// object, and the changed mark is set for the upload stage. Newly
    /// visible objects get a fresh record with no allocation.
    fn apply_objects(&mut self, objects: &Vec<PointCloudObject>)
        requires
            old(self).keys_unique(),
            objects_wf(objects@),
            forall|id: u64| #[trigger]
                old(self).spec_contains(id) ==> contains_id(objects@, id),
        ensures
            final(self).keys_unique(),
            held_allocs(final(self).entries@).to_multiset() == held_allocs(
                old(self).entries@,
            ).to_multiset(),
            forall|id: u64| #[trigger]
                final(self).spec_contains(id) <==> contains_id(objects@, id),
            forall|k: int|
                0 <= k < objects@.len() ==> reconciled_record(
                    *old(self),
                    *final(self),
                    #[trigger] objects@[k],
                ),
    {
        let ghost reg1 = *old(self);
        let mut k: usize = 0;
        while k < objects.len()
            invariant
                k <= objects@.len(),
                self.keys_unique(),
                objects_wf(objects@),
                forall|id: u64| #[trigger] reg1.spec_contains(id) ==> contains_id(objects@, id),
                held_allocs(self.entries@).to_multiset() == held_allocs(
                    reg1.entries@,
                ).to_multiset(),
                forall|id: u64| #[trigger]
                    self.spec_contains(id) <==> (reg1.spec_contains(id) || exists|m: int|
                        0 <= m < k && (#[trigger] objects@[m]).id == id),
                forall|m: int|
                    0 <= m < k ==> reconciled_record(reg1, *self, #[trigger] objects@[m]),
                forall|m: int|
                    k <= m < objects@.len() ==> #[trigger] self.spec_get(objects@[m].id)
                        == reg1.spec_get(objects@[m].id),
            decreases objects@.len() - k,
        {
            let o_id = objects[k].id;
            let o_version = objects[k].version;
            let o_transform = objects[k].transform;
            let count_usize = objects[k].points.len();
            let count = count_usize as u32;
            proof {
                assert(objects@[k as int].points@.len() <= u32::MAX);
                assert(count == objects@[k as int].points@.len());
            }
            let ghost pre_step = *self;
            match self.find_entry(o_id) {
                Some(i) => {
                    let p = self.entries[i].1;
                    let has_alloc = p.allocation.is_some();
                    let rec = InstanceRecord {
                        world_from_local: o_transform,
                        previous_world_from_local: p.world_from_local,
                        point_count: count,
                        allocation: p.allocation,
                        version: o_version,
                        changed: p.version != o_version || (!has_alloc && count > 0),
                    };
                    proof {
                        lemma_held_allocs_update_same(self.entries@, i as int, (o_id, rec));
                        self.lemma_get_at(i as int);
                    }
                    self.entries.set(i, (o_id, rec));
                    proof {
                        lemma_update_entry(pre_step, *self, i as int, (o_id, rec));
                        assert(pre_step.spec_get(o_id) == Some(p));
                        assert(reg1.spec_get(o_id) == Some(p));
                        assert(self.spec_get(o_id) == Some(rec));
                        assert(reconciled_record(reg1, *self, objects@[k as int]));
                    }
                },
                None => {
                    let rec = InstanceRecord {
                        world_from_local: o_transform,
                        previous_world_from_local: o_transform,
                        point_count: count,
                        allocation: None,
                        version: o_version,
                        changed: true,
                    };
                    proof {
                        lemma_held_allocs_push(self.entries@, (o_id, rec));
                    }
                    self.entries.push((o_id, rec));
                    proof {
                        lemma_push_entry(pre_step, *self, (o_id, rec));
                        assert(reg1.spec_get(o_id) == pre_step.spec_get(o_id));
                        assert(!pre_step.spec_contains(o_id));
                        assert(reg1.spec_get(o_id) is None);
                        assert(self.spec_get(o_id) == Some(rec));
                        assert(reconciled_record(reg1, *self, objects@[k as int]));
                    }
                },
            }
            proof {
                assert forall|m: int|
                    0 <= m < k + 1 implies reconciled_record(
                    reg1,
                    *self,
                    #[trigger] objects@[m],
                ) by {
                    if m < k {
                        assert(objects@[m].id != o_id);
                        assert(self.spec_get(objects@[m].id) == pre_step.spec_get(objects@[m].id));
                        assert(reconciled_record(reg1, pre_step, objects@[m]));
                    }
                }
                assert forall|m: int|
                    k + 1 <= m < objects@.len() implies #[trigger] self.spec_get(objects@[m].id)
                    == reg1.spec_get(objects@[m].id) by {
                    assert(objects@[m].id != o_id);
                    assert(self.spec_get(objects@[m].id) == pre_step.spec_get(objects@[m].id));
                }
                assert forall|id: u64| #[trigger]
                    self.spec_contains(id) implies (reg1.spec_contains(id) || exists|m: int|
                    0 <= m < k + 1 && (#[trigger] objects@[m]).id == id) by {
                    if id != o_id {
                        assert(pre_step.spec_contains(id));
                    } else {
                        assert(objects@[k as int].id == id);
                    }
                }
                assert forall|id: u64|
                    (reg1.spec_contains(id) || exists|m: int|
                        0 <= m < k + 1 && (#[trigger] objects@[m]).id == id) implies #[trigger] self.spec_contains(
                    id,
                ) by {
                    if id != o_id {
                        assert(pre_step.spec_contains(id));
                    }
                }
            }
            k = k + 1;
        }
        proof {
            assert forall|id: u64| #[trigger]
                self.spec_contains(id) implies contains_id(objects@, id) by {
                if reg1.spec_contains(id) {
                } else {
                    let m = choose|m: int|
                        0 <= m < objects@.len() && (#[trigger] objects@[m]).id == id;
                    assert(contains_id(objects@, id));
                }
            }
            assert forall|id: u64| contains_id(objects@, id) implies #[trigger] self.spec_contains(
                id,
            ) by {
                let m = choose|m: int|
                    0 <= m < objects@.len() && (#[trigger] objects@[m]).id == id;
            }
        }
    }

    /// Reconcile the registry against the currently visible set of
    /// point-cloud objects, in two passes. First every record whose object
    /// is no longer visible is removed and its allocation freed immediately
    /// (the eviction point: nothing is deferred, so no record survives its
    /// object's visibility). Then every visible object's record is brought
    /// up to date: the old current transform becomes the previous one, the
    /// object's transform, point count and sequence version are taken, and
    /// the record is marked changed exactly when the upload stage must act.
    /// Newly visible objects get a record with equal current and previous
    /// transforms and no allocation yet.
    pub fn reconcile(&mut self, arena: &mut PointArena, objects: &Vec<PointCloudObject>)
        requires
            old(self).keys_unique(),
            old(arena).wf(),
            synced(*old(self), *old(arena)),
            objects_wf(objects@),
        ensures
            final(self).keys_unique(),
            final(arena).wf(),
            synced(*final(self), *final(arena)),
            final(arena).capacity == old(arena).capacity,
            final(arena).store@ == old(arena).store@,
            forall|id: u64| #[trigger]
                final(self).spec_contains(id) <==> contains_id(objects@, id),
            forall|k: int|
                0 <= k < objects@.len() ==> reconciled_record(
                    *old(self),
                    *final(self),
                    #[trigger] objects@[k],
                ),
    {
        let ghost reg0 = *old(self);
        self.evict_missing(arena, objects);
        let ghost reg1 = *self;
        proof {
            assert forall|id: u64| #[trigger] reg1.spec_contains(id) implies contains_id(
                objects@,
                id,
            ) by {}
        }
        self.apply_objects(objects);
        proof {
            assert forall|k: int| 0 <= k < objects@.len() implies reconciled_record(
                reg0,
                *self,
                #[trigger] objects@[k],
            ) by {
                let o = objects@[k];
                assert(reconciled_record(reg1, *self, o));
                if reg1.spec_contains(o.id) {
                    assert(reg1.spec_get(o.id) == reg0.spec_get(o.id));
                } else {
                    if reg0.spec_contains(o.id) {
                        assert(contains_id(objects@, o.id));
                        assert(reg1.spec_contains(o.id));
                    }
                    assert(reg0.spec_get(o.id) is None);
                    assert(reg1.spec_get(o.id) is None);
                }
            }
        }
    }
}

} // verus!
