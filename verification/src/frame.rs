//! The per-frame driver: reconcile, then upload, then assemble, one staged
//! pass per rendered frame. The stages never run concurrently for the same
//! frame; GPU work from earlier frames stays valid because allocations are
//! only rewritten behind a free and a fresh allocate, which the upload
//! stage's contract carries.

use vstd::prelude::*;

use crate::arena::{all_gaps_below, PointArena};
use crate::batch::{assemble_view, requests_unique, view_assembled, AssembledView, DrawRequest};
use crate::registry::{
    contains_id, objects_wf, reconciled_record, synced, InstanceRecord, InstanceRegistry,
    PointCloudObject,
};
use crate::batch::vertex_offset;
use crate::registry::held_allocs;
use crate::sync::{content_preserved, lemma_held_allocs_at, sync_outcome, sync_uploads, uploaded_record};

verus! {

/// One view's frame input: the draw requests its visibility and material
/// collaborators produced (objects that passed the view's visibility test,
/// each with its pipeline key).
pub struct ViewInput {
    pub requests: Vec<DrawRequest>,
}

/// The owned core state the driver wires together each frame: the point
/// arena and the instance registry.
pub struct PointCloudState {
    pub arena: PointArena,
    pub registry: InstanceRegistry,
}

/// What one frame leaves behind for object `o`, end to end across the
/// reconcile and upload stages. The record carries the object's transform
/// (with the previous frame's transform preserved for motion vectors), its
/// point count and sequence version, and is no longer marked changed. If
/// the object was new, its sequence identity moved, or its allocation was
/// missing, the upload ran: the allocation is sized to the point count —
/// none at all for an empty object — and holds exactly the object's
/// samples; a missing allocation is owed only to real exhaustion, no free
/// gap of the resulting arena being able to hold the points.
/// Otherwise the record and its stored samples are carried over untouched.
pub open spec fn frame_outcome(
    pre_reg: InstanceRegistry,
    pre_arena: PointArena,
    reg: InstanceRegistry,
    arena: PointArena,
    o: PointCloudObject,
) -> bool {
    match reg.spec_get(o.id) {
        Some(r) => {
            &&& r.world_from_local == o.transform
            &&& r.point_count == o.points@.len()
            &&& r.version == o.version
            &&& r.changed == false
            &&& match pre_reg.spec_get(o.id) {
                Some(p) => {
                    &&& r.previous_world_from_local == p.world_from_local
                    &&& if p.version != o.version || (p.allocation is None && o.points@.len()
                        > 0) {
                        &&& (o.points@.len() == 0 ==> r.allocation is None)
                        &&& (r.allocation is None && o.points@.len() > 0 ==> all_gaps_below(
                            arena.gaps@,
                            o.points@.len() as int,
                        ))
                        &&& match r.allocation {
                            Some(a) => a.length == o.points@.len() && arena.stored(a)
                                == o.points@,
                            None => true,
                        }
                    } else {
                        r.allocation == p.allocation && match p.allocation {
                            Some(a) => arena.stored(a) == pre_arena.stored(a),
                            None => true,
                        }
                    }
                },
                None => {
                    &&& r.previous_world_from_local == o.transform
                    &&& (o.points@.len() == 0 ==> r.allocation is None)
                    &&& (r.allocation is None && o.points@.len() > 0 ==> all_gaps_below(
                        arena.gaps@,
                        o.points@.len() as int,
                    ))
                    &&& match r.allocation {
                        Some(a) => a.length == o.points@.len() && arena.stored(a) == o.points@,
                        None => true,
                    }
                },
            }
        },
        None => false,
    }
}

impl PointCloudState {
    /// The cross-component invariant the driver maintains: a well-formed
    /// arena, unique registry handles, and live allocations that are
    /// exactly the registry's held allocations.
    pub open spec fn wf(self) -> bool {
        &&& self.arena.wf()
        &&& self.registry.keys_unique()
        &&& synced(self.registry, self.arena)
    }

    /// Fresh core state: an empty registry over an arena of the given
    /// fixed capacity.
    pub fn new(capacity: u32) -> (s: PointCloudState)
        ensures
            s.wf(),
            s.arena.capacity == capacity,
            s.registry.entries@.len() == 0,
    {
        let arena = PointArena::with_capacity(capacity);
        let registry = InstanceRegistry::new();
        let s = PointCloudState { arena, registry };
        proof {
            assert(crate::registry::held_allocs(s.registry.entries@) =~= Seq::<
                crate::arena::Allocation,
            >::empty());
            assert(s.arena.live@.to_multiset() =~= crate::registry::held_allocs(
                s.registry.entries@,
            ).to_multiset());
        }
        s
    }

    /// Run one frame's CPU stages: reconcile the registry against the
    /// visible objects (evicting and freeing what vanished), upload every
    /// changed record's points into the arena, and assemble each view's
    /// draw, uniform and batch lists. The returned views are index-aligned
    /// with the inputs.
    #[verifier::rlimit(100)]
    #[verifier::spinoff_prover]
    pub fn run_frame(
        &mut self,
        objects: &Vec<PointCloudObject>,
        views: &Vec<ViewInput>,
    ) -> (out: Vec<AssembledView>)
        requires
            old(self).wf(),
            objects_wf(objects@),
            objects@.len() <= u32::MAX,
            old(self).arena.capacity * 6 <= u32::MAX,
            forall|k: int|
                0 <= k < objects@.len() ==> (#[trigger] objects@[k]).points@.len() * 6
                    <= u32::MAX,
            forall|v: int| 0 <= v < views@.len() ==> requests_unique((#[trigger] views@[v]).requests@),
        ensures
            final(self).wf(),
            final(self).arena.capacity == old(self).arena.capacity,
            forall|id: u64| #[trigger]
                final(self).registry.spec_contains(id) <==> contains_id(objects@, id),
            forall|k: int|
                0 <= k < objects@.len() ==> frame_outcome(
                    old(self).registry,
                    old(self).arena,
                    final(self).registry,
                    final(self).arena,
                    #[trigger] objects@[k],
                ),
            out@.len() == views@.len(),
            forall|v: int|
                0 <= v < views@.len() ==> view_assembled(
                    final(self).registry.entries@,
                    (#[trigger] views@[v]).requests@,
                    out@[v],
                ),
    {
        let ghost reg0 = self.registry;
        let ghost arena0 = self.arena;
        self.registry.reconcile(&mut self.arena, objects);
        let ghost reg1 = self.registry;
        let ghost arena1 = self.arena;
        proof {
            assert forall|k: int| 0 <= k < objects@.len() implies self.registry.spec_contains(
                (#[trigger] objects@[k]).id,
            ) by {
                assert(contains_id(objects@, objects@[k].id));
            }
            assert forall|k: int|
                0 <= k < objects@.len() implies match self.registry.spec_get(
                (#[trigger] objects@[k]).id,
            ) {
                Some(p) => p.point_count == objects@[k].points@.len(),
                None => true,
            } by {
                assert(reconciled_record(reg0, reg1, objects@[k]));
            }
        }
        sync_uploads(&mut self.registry, &mut self.arena, objects);
        proof {
            assert forall|k: int| 0 <= k < objects@.len() implies frame_outcome(
                reg0,
                arena0,
                self.registry,
                self.arena,
                #[trigger] objects@[k],
            ) by {
                let o = objects@[k];
                assert(reconciled_record(reg0, reg1, o));
                assert(sync_outcome(reg1, self.registry, self.arena, o));
                assert(content_preserved(reg1, arena1, self.arena, o));
                assert(arena1.store@ == arena0.store@);
                let r1 = reg1.spec_get(o.id).unwrap();
                let r2 = self.registry.spec_get(o.id).unwrap();
                if r1.changed {
                    assert(uploaded_record(r1, r2, self.arena, o.points@));
                    if r2.allocation is Some {
                        assert(r2.allocation.unwrap().length > 0);
                    }
                } else {
                    assert(r2 == r1);
                    match r1.allocation {
                        Some(a) => {
                            assert(self.arena.stored(a) == arena1.stored(a));
                            assert(arena1.stored(a) == arena0.stored(a));
                        },
                        None => {},
                    }
                }
            }
            assert forall|j: int|
                0 <= j < self.registry.entries@.len() implies (
            #[trigger] self.registry.entries@[j]).1.point_count * 6 <= u32::MAX by {
                self.registry.lemma_get_at(j);
                let id = self.registry.entries@[j].0;
                assert(self.registry.spec_contains(id));
                assert(contains_id(objects@, id));
                let k = choose|k: int| 0 <= k < objects@.len() && (#[trigger] objects@[k]).id == id;
                assert(frame_outcome(reg0, arena0, self.registry, self.arena, objects@[k]));
            }
            assert forall|j: int|
                0 <= j < self.registry.entries@.len() implies vertex_offset(
                #[trigger] self.registry.entries@[j].1,
            ) <= u32::MAX by {
                match self.registry.entries@[j].1.allocation {
                    Some(a) => {
                        lemma_held_allocs_at(self.registry.entries@, j, a);
                        held_allocs(self.registry.entries@).to_multiset_ensures();
                        self.arena.live@.to_multiset_ensures();
                        assert(self.arena.live@.to_multiset().count(a) > 0);
                        assert(self.arena.live@.contains(a));
                        let x = choose|x: int|
                            0 <= x < self.arena.live@.len() && self.arena.live@[x] == a;
                        assert(self.arena.live@[x].offset + self.arena.live@[x].length
                            <= self.arena.capacity);
                    },
                    None => {},
                }
            }
            assert(self.registry.entries@.len() <= u32::MAX) by {
                assert forall|j: int|
                    0 <= j < self.registry.entries@.len() implies contains_id(
                    objects@,
                    (#[trigger] self.registry.entries@[j]).0,
                ) by {
                    self.registry.lemma_get_at(j);
                }
                lemma_entry_count_bounded(self.registry, objects@);
            }
        }
        let mut out: Vec<AssembledView> = Vec::new();
        let mut v: usize = 0;
        while v < views.len()
            invariant
                v <= views@.len(),
                out@.len() == v,
                self.registry.keys_unique(),
                self.registry.entries@.len() <= u32::MAX,
                forall|j: int|
                    0 <= j < self.registry.entries@.len() ==> (
                    #[trigger] self.registry.entries@[j]).1.point_count * 6 <= u32::MAX,
                forall|j: int|
                    0 <= j < self.registry.entries@.len() ==> vertex_offset(
                        #[trigger] self.registry.entries@[j].1,
                    ) <= u32::MAX,
                forall|v2: int|
                    0 <= v2 < views@.len() ==> requests_unique((#[trigger] views@[v2]).requests@),
                forall|v2: int|
                    0 <= v2 < v ==> view_assembled(
                        self.registry.entries@,
                        (#[trigger] views@[v2]).requests@,
                        out@[v2],
                    ),
            decreases views@.len() - v,
        {
            let assembled = assemble_view(&self.registry, &views[v].requests);
            out.push(assembled);
            v = v + 1;
        }
        out
    }
}

/// A registry whose handles all come from a set of objects with unique
/// handles has no more entries than there are objects: the entry keys map
/// injectively into the object ids.
proof fn lemma_entry_count_bounded(reg: InstanceRegistry, objs: Seq<PointCloudObject>)
    requires
        reg.keys_unique(),
        forall|j: int|
            0 <= j < reg.entries@.len() ==> contains_id(objs, (#[trigger] reg.entries@[j]).0),
    ensures
        reg.entries@.len() <= objs.len(),
{
    broadcast use vstd::set::group_set_axioms;

    let keys = reg.entries@.map_values(|e: (u64, InstanceRecord)| e.0);
    let ids = objs.map_values(|o: PointCloudObject| o.id);
    assert(keys.no_duplicates());
    keys.unique_seq_to_set();
    ids.lemma_cardinality_of_set();
    assert forall|x: u64| keys.to_set().contains(x) implies ids.to_set().contains(x) by {
        let j = choose|j: int| 0 <= j < keys.len() && keys[j] == x;
        assert(reg.entries@[j].0 == x);
        assert(contains_id(objs, x));
        let k = choose|k: int| 0 <= k < objs.len() && (#[trigger] objs[k]).id == x;
        assert(ids[k] == x);
    }
    vstd::set_lib::lemma_len_subset(keys.to_set(), ids.to_set());
}

} // verus!
