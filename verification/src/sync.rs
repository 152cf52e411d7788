//! The upload stage: for every record the reconcile pass marked changed,
//! free its old allocation, request a new one sized to the object's current
//! point count, and copy the point samples into the arena at the allocated
//! offset in one bulk transfer.
//!
//! The stage runs in two phases: first every changed record releases its
//! old allocation, then the uploads allocate in order. Because no free
//! happens after the releases, free gaps only shrink during the uploads,
//! so an upload that fails is provably real exhaustion: no gap of the
//! resulting arena can hold the record's points. Success is owed whenever
//! space exists.
//!
//! An allocation's contents are only ever rewritten behind a free and a
//! fresh allocate, never in place, so data a still-in-flight frame reads
//! stays intact; the proofs below show that no other record's stored
//! samples move. Exhaustion is handled by dropping the object from
//! rendering for this frame: its record keeps no allocation, and the next
//! reconcile marks it changed again so the upload is retried.

use vstd::prelude::*;
use vstd::pervasive::VecAdditionalExecFns;

use crate::arena::{
    all_gaps_below, disjoint, lemma_carve_keeps_gap_bounds, lemma_write_read_round_trip,
    write_effect, Allocation, PointArena,
};
use crate::registry::{
    held_allocs, lemma_held_allocs_append, lemma_held_allocs_one, lemma_singleton_multiset,
    objects_wf, synced, InstanceRecord, InstanceRegistry, PointCloudObject,
};
use vstd::multiset::Multiset;

verus! {

/// A held allocation occurs in `held_allocs`.
pub proof fn lemma_held_allocs_at(s: Seq<(u64, InstanceRecord)>, i: int, a: Allocation)
    requires
        0 <= i < s.len(),
        s[i].1.allocation == Some(a),
    ensures
        held_allocs(s).contains(a),
    decreases i,
{
    if i == 0 {
        assert(held_allocs(s)[0] == a);
    } else {
        lemma_held_allocs_at(s.drop_first(), i - 1, a);
        let tail = held_allocs(s.drop_first());
        let k = choose|k: int| 0 <= k < tail.len() && tail[k] == a;
        match s[0].1.allocation {
            Some(b) => {
                assert(held_allocs(s) == seq![b] + tail);
                assert(held_allocs(s)[k + 1] == a);
            },
            None => {
                assert(held_allocs(s) == tail);
            },
        }
    }
}

/// A write into a range touches no sample of a disjoint range.
pub proof fn lemma_preserved_slice(
    pre: Seq<crate::sample::PointSample>,
    post: Seq<crate::sample::PointSample>,
    a: Allocation,
    pts: Seq<crate::sample::PointSample>,
    b: Allocation,
)
    requires
        write_effect(pre, post, a, pts),
        disjoint(a, b),
        b.offset + b.length <= pre.len(),
    ensures
        post.subrange(b.offset as int, b.offset + b.length) == pre.subrange(
            b.offset as int,
            b.offset + b.length,
        ),
{
    assert(post.subrange(b.offset as int, b.offset + b.length) =~= pre.subrange(
        b.offset as int,
        b.offset + b.length,
    ));
}

/// Decomposition of `held_allocs` around one updated entry.
pub proof fn lemma_held_update(s: Seq<(u64, InstanceRecord)>, i: int, e: (u64, InstanceRecord))
    requires
        0 <= i < s.len(),
    ensures
        held_allocs(s.update(i, e)) == held_allocs(s.subrange(0, i)) + held_allocs(seq![e])
            + held_allocs(s.subrange(i + 1, s.len() as int)),
        held_allocs(s) == held_allocs(s.subrange(0, i)) + held_allocs(seq![s[i]]) + held_allocs(
            s.subrange(i + 1, s.len() as int),
        ),
{
    assert(s =~= (s.subrange(0, i) + seq![s[i]]) + s.subrange(i + 1, s.len() as int));
    assert(s.update(i, e) =~= (s.subrange(0, i) + seq![e]) + s.subrange(i + 1, s.len() as int));
    lemma_held_allocs_append(s.subrange(0, i) + seq![s[i]], s.subrange(i + 1, s.len() as int));
    lemma_held_allocs_append(s.subrange(0, i), seq![s[i]]);
    lemma_held_allocs_append(s.subrange(0, i) + seq![e], s.subrange(i + 1, s.len() as int));
    lemma_held_allocs_append(s.subrange(0, i), seq![e]);
    assert(held_allocs(s.update(i, e)) == (held_allocs(s.subrange(0, i)) + held_allocs(seq![e]))
        + held_allocs(s.subrange(i + 1, s.len() as int)));
    assert(held_allocs(s) == (held_allocs(s.subrange(0, i)) + held_allocs(seq![s[i]]))
        + held_allocs(s.subrange(i + 1, s.len() as int)));
}

/// The empty sequence has the empty multiset.
pub proof fn lemma_empty_alloc_multiset()
    ensures
        Seq::<Allocation>::empty().to_multiset() =~= Multiset::<Allocation>::empty(),
{
    broadcast use vstd::multiset::group_multiset_axioms;

    Seq::<Allocation>::empty().to_multiset_ensures();
    assert forall|x: Allocation| Seq::<Allocation>::empty().to_multiset().count(x) == 0 by {
        assert(!Seq::<Allocation>::empty().contains(x));
    }
}

/// What the upload leaves in entry `i`: everything carried over from the
/// record but the allocation, which now matches the uploaded samples (or is
/// gone, for an empty object or after exhaustion), and the changed mark,
/// which is cleared.
pub open spec fn uploaded_record(
    p: InstanceRecord,
    r: InstanceRecord,
    arena_post: PointArena,
    pts: Seq<crate::sample::PointSample>,
) -> bool {
    &&& r.world_from_local == p.world_from_local
    &&& r.previous_world_from_local == p.previous_world_from_local
    &&& r.point_count == p.point_count
    &&& r.version == p.version
    &&& r.changed == false
    &&& match r.allocation {
        Some(a) => {
            &&& a.length == p.point_count
            &&& a.length > 0
            &&& a.offset + a.length <= arena_post.capacity
            &&& arena_post.stored(a) == pts
        },
        None => true,
    }
    &&& (p.point_count == 0 ==> r.allocation is None)
    &&& (r.allocation is None && p.point_count > 0 ==> all_gaps_below(
        arena_post.gaps@,
        p.point_count as int,
    ))
}

/// Release one record's old allocation back to the arena, leaving the
/// record without one; everything else about the record, and every stored
/// sample, stays as it was. Part one of the upload stage: all releases run
/// before any upload allocates, so gaps only shrink afterwards.
#[verifier::rlimit(100)]
#[verifier::spinoff_prover]
fn release_record(reg: &mut InstanceRegistry, arena: &mut PointArena, i: usize)
    requires
        old(reg).keys_unique(),
        old(arena).wf(),
        synced(*old(reg), *old(arena)),
        i < old(reg).entries@.len(),
    ensures
        final(reg).keys_unique(),
        final(arena).wf(),
        synced(*final(reg), *final(arena)),
        final(arena).capacity == old(arena).capacity,
        final(arena).store@ == old(arena).store@,
        final(reg).entries@.len() == old(reg).entries@.len(),
        final(reg).entries@ == old(reg).entries@.update(
            i as int,
            final(reg).entries@[i as int],
        ),
        final(reg).entries@[i as int].0 == old(reg).entries@[i as int].0,
        ({
            let p = old(reg).entries@[i as int].1;
            let q = final(reg).entries@[i as int].1;
            &&& q.world_from_local == p.world_from_local
            &&& q.previous_world_from_local == p.previous_world_from_local
            &&& q.point_count == p.point_count
            &&& q.version == p.version
            &&& q.changed == p.changed
            &&& q.allocation is None
        }),
{
    broadcast use vstd::multiset::group_multiset_axioms;

    let ghost entries0 = reg.entries@;
    let key = reg.entries[i].0;
    let p = reg.entries[i].1;
    match p.allocation {
        Some(old_alloc) => {
            proof {
                lemma_held_allocs_at(entries0, i as int, old_alloc);
                held_allocs(entries0).to_multiset_ensures();
                arena.live@.to_multiset_ensures();
                assert(arena.live@.to_multiset().count(old_alloc) > 0);
                assert(arena.live@.contains(old_alloc));
                let x0 = choose|x: int|
                    0 <= x < arena.live@.len() && arena.live@[x] == old_alloc;
                assert(arena.live@[x0].length > 0);
            }
            arena.free(old_alloc);
        },
        None => {},
    }
    let rec = InstanceRecord {
        world_from_local: p.world_from_local,
        previous_world_from_local: p.previous_world_from_local,
        point_count: p.point_count,
        allocation: None,
        version: p.version,
        changed: p.changed,
    };
    reg.entries.set(i, (key, rec));
    proof {
        assert forall|i1: int, i2: int|
            0 <= i1 < i2 < reg.entries@.len() implies (#[trigger] reg.entries@[i1]).0 != (
        #[trigger] reg.entries@[i2]).0 by {
            assert(entries0[i1].0 != entries0[i2].0);
        }
        assert(reg.entries@ == entries0.update(i as int, (key, rec)));
        lemma_held_update(entries0, i as int, (key, rec));
        lemma_held_allocs_one((key, rec));
        lemma_held_allocs_one(entries0[i as int]);
        let ta = held_allocs(entries0.subrange(0, i as int));
        let tb = held_allocs(entries0.subrange(i as int + 1, entries0.len() as int));
        let se_new = held_allocs(seq![(key, rec)]);
        let se_old = held_allocs(seq![entries0[i as int]]);
        vstd::seq_lib::lemma_multiset_commutative(ta + se_old, tb);
        vstd::seq_lib::lemma_multiset_commutative(ta, se_old);
        vstd::seq_lib::lemma_multiset_commutative(ta + se_new, tb);
        vstd::seq_lib::lemma_multiset_commutative(ta, se_new);
        lemma_empty_alloc_multiset();
        match p.allocation {
            Some(o) => {
                lemma_singleton_multiset(o);
            },
            None => {},
        }
        assert(arena.live@.to_multiset() =~= held_allocs(reg.entries@).to_multiset());
    }
}

/// Upload one record whose old allocation was already released: allocate
/// for the current point count, copy the samples in, clear the changed
/// mark. If the arena cannot satisfy the request, the record keeps no
/// allocation and, provably, no free gap of the resulting arena could hold
/// the points. No other record and no other record's stored samples are
/// touched, and no free gap ever grows.
#[verifier::rlimit(100)]
#[verifier::spinoff_prover]
fn upload_record(
    reg: &mut InstanceRegistry,
    arena: &mut PointArena,
    i: usize,
    points: &Vec<crate::sample::PointSample>,
)
    requires
        old(reg).keys_unique(),
        old(arena).wf(),
        synced(*old(reg), *old(arena)),
        i < old(reg).entries@.len(),
        old(reg).entries@[i as int].1.allocation is None,
        points@.len() == old(reg).entries@[i as int].1.point_count,
    ensures
        final(reg).keys_unique(),
        final(arena).wf(),
        synced(*final(reg), *final(arena)),
        final(arena).capacity == old(arena).capacity,
        final(reg).entries@.len() == old(reg).entries@.len(),
        final(reg).entries@ == old(reg).entries@.update(
            i as int,
            final(reg).entries@[i as int],
        ),
        final(reg).entries@[i as int].0 == old(reg).entries@[i as int].0,
        uploaded_record(
            old(reg).entries@[i as int].1,
            final(reg).entries@[i as int].1,
            *final(arena),
            points@,
        ),
        forall|j: int|
            0 <= j < old(reg).entries@.len() && j != i ==> match (#[trigger] old(
                reg,
            ).entries@[j]).1.allocation {
                Some(b) => final(arena).stored(b) == old(arena).stored(b),
                None => true,
            },
        forall|n: int|
            all_gaps_below(old(arena).gaps@, n) ==> all_gaps_below(final(arena).gaps@, n),
{
    broadcast use vstd::multiset::group_multiset_axioms;

    let ghost entries0 = reg.entries@;
    let ghost gaps0 = arena.gaps@;
    let ghost store0 = arena.store@;
    let ghost live0 = arena.live@;
    let key = reg.entries[i].0;
    let p = reg.entries[i].1;
    proof {
        arena.live@.to_multiset_ensures();
        // every held allocation of another entry is live
        assert forall|j: int|
            0 <= j < entries0.len() && j != i implies match (#[trigger] entries0[j]).1.allocation {
            Some(b) => arena.live@.contains(b) && b.offset + b.length <= arena.capacity
                && b.length > 0,
            None => true,
        } by {
            match entries0[j].1.allocation {
                Some(b) => {
                    lemma_held_allocs_at(entries0, j, b);
                    held_allocs(entries0).to_multiset_ensures();
                    assert(arena.live@.to_multiset().count(b) > 0);
                    assert(arena.live@.contains(b));
                    let x = choose|x: int|
                        0 <= x < arena.live@.len() && arena.live@[x] == b;
                    assert(arena.live@[x].length > 0);
                },
                None => {},
            }
        }
    }
    // Allocate for the current point count and copy the samples.
    let new_alloc: Option<Allocation> = if p.point_count > 0 {
        match arena.allocate(p.point_count) {
            Ok(a) => {
                proof {
                    assert forall|j: int|
                        0 <= j < entries0.len() && j != i implies match (
                    #[trigger] entries0[j]).1.allocation {
                        Some(b) => disjoint(a, b),
                        None => true,
                    } by {
                        match entries0[j].1.allocation {
                            Some(b) => {
                                let x = choose|x: int|
                                    0 <= x < live0.len() && live0[x] == b;
                                assert(disjoint(a, live0[x]));
                            },
                            None => {},
                        }
                    }
                    assert(arena.live@[arena.live@.len() - 1] == a);
                    assert(arena.live@.contains(a));
                    vstd::seq_lib::to_multiset_build(live0, a);
                    assert forall|n: int| all_gaps_below(gaps0, n) implies all_gaps_below(
                        arena.gaps@,
                        n,
                    ) by {
                        lemma_carve_keeps_gap_bounds(gaps0, arena.gaps@, p.point_count, a, n);
                    }
                }
                arena.write_points(a, points);
                proof {
                    lemma_write_read_round_trip(store0, arena.store@, a, points@);
                    assert forall|j: int|
                        0 <= j < entries0.len() && j != i implies match (
                    #[trigger] entries0[j]).1.allocation {
                        Some(b) => arena.stored(b) == old(arena).stored(b),
                        None => true,
                    } by {
                        match entries0[j].1.allocation {
                            Some(b) => {
                                lemma_preserved_slice(store0, arena.store@, a, points@, b);
                            },
                            None => {},
                        }
                    }
                }
                Some(a)
            },
            Err(_) => None,
        }
    } else {
        None
    };
    // Store the refreshed record.
    let rec = InstanceRecord {
        world_from_local: p.world_from_local,
        previous_world_from_local: p.previous_world_from_local,
        point_count: p.point_count,
        allocation: new_alloc,
        version: p.version,
        changed: false,
    };
    reg.entries.set(i, (key, rec));
    proof {
        assert forall|i1: int, i2: int|
            0 <= i1 < i2 < reg.entries@.len() implies (#[trigger] reg.entries@[i1]).0 != (
        #[trigger] reg.entries@[i2]).0 by {
            assert(entries0[i1].0 != entries0[i2].0);
        }
        // the live multiset tracks the held multiset through the swap
        assert(reg.entries@ == entries0.update(i as int, (key, rec)));
        lemma_held_update(entries0, i as int, (key, rec));
        lemma_held_allocs_one((key, rec));
        lemma_held_allocs_one(entries0[i as int]);
        let ta = held_allocs(entries0.subrange(0, i as int));
        let tb = held_allocs(entries0.subrange(i as int + 1, entries0.len() as int));
        let se_new = held_allocs(seq![(key, rec)]);
        let se_old = held_allocs(seq![entries0[i as int]]);
        vstd::seq_lib::lemma_multiset_commutative(ta + se_old, tb);
        vstd::seq_lib::lemma_multiset_commutative(ta, se_old);
        vstd::seq_lib::lemma_multiset_commutative(ta + se_new, tb);
        vstd::seq_lib::lemma_multiset_commutative(ta, se_new);
        lemma_empty_alloc_multiset();
        match new_alloc {
            Some(n) => {
                lemma_singleton_multiset(n);
            },
            None => {},
        }
        assert(arena.live@.to_multiset() =~= held_allocs(reg.entries@).to_multiset());
    }
}

/// Outcome of the upload stage for one object: a record the reconcile pass
/// marked changed was uploaded (`uploaded_record`), every other record is
/// exactly as reconcile left it.
pub open spec fn sync_outcome(
    pre_reg: InstanceRegistry,
    post_reg: InstanceRegistry,
    post_arena: PointArena,
    o: PointCloudObject,
) -> bool {
    match (pre_reg.spec_get(o.id), post_reg.spec_get(o.id)) {
        (Some(p), Some(r)) => if p.changed {
            uploaded_record(p, r, post_arena, o.points@)
        } else {
            r == p
        },
        _ => false,
    }
}

/// The stored samples of a record the upload stage did not touch are intact.
pub open spec fn content_preserved(
    pre_reg: InstanceRegistry,
    pre_arena: PointArena,
    post_arena: PointArena,
    o: PointCloudObject,
) -> bool {
    match pre_reg.spec_get(o.id) {
        Some(p) => !p.changed ==> match p.allocation {
            Some(b) => post_arena.stored(b) == pre_arena.stored(b),
            None => true,
        },
        None => true,
    }
}

/// The state between the two phases: a changed record has surrendered its
/// allocation and everything else about it is as the reconcile pass left
/// it; an unchanged record is untouched.
pub open spec fn sync_released(
    reg0: InstanceRegistry,
    reg: InstanceRegistry,
    o: PointCloudObject,
) -> bool {
    match (reg0.spec_get(o.id), reg.spec_get(o.id)) {
        (Some(p), Some(q)) => {
            &&& q.world_from_local == p.world_from_local
            &&& q.previous_world_from_local == p.previous_world_from_local
            &&& q.point_count == p.point_count
            &&& q.version == p.version
            &&& q.changed == p.changed
            &&& if p.changed {
                q.allocation is None
            } else {
                q == p
            }
        },
        _ => false,
    }
}

/// The upload stage, in two phases over the visible objects: release every
/// changed record's old allocation, then upload each changed record in
/// order. Records not marked stay exactly as they were and their stored
/// samples do not move. Because nothing is freed after the releases, free
/// gaps only shrink during the uploads, and a record that ends without an
/// allocation did hit real exhaustion: no free gap of the resulting arena
/// can hold its points (`uploaded_record`'s final clause). Success is owed
/// whenever a fitting gap remains.
#[verifier::rlimit(100)]
#[verifier::spinoff_prover]
pub fn sync_uploads(
    reg: &mut InstanceRegistry,
    arena: &mut PointArena,
    objects: &Vec<PointCloudObject>,
)
    requires
        old(reg).keys_unique(),
        old(arena).wf(),
        synced(*old(reg), *old(arena)),
        objects_wf(objects@),
        forall|k: int|
            0 <= k < objects@.len() ==> old(reg).spec_contains((#[trigger] objects@[k]).id),
        forall|k: int|
            0 <= k < objects@.len() ==> match old(reg).spec_get((#[trigger] objects@[k]).id) {
                Some(p) => p.point_count == objects@[k].points@.len(),
                None => true,
            },
    ensures
        final(reg).keys_unique(),
        final(arena).wf(),
        synced(*final(reg), *final(arena)),
        final(arena).capacity == old(arena).capacity,
        forall|id: u64| #[trigger]
            final(reg).spec_contains(id) <==> old(reg).spec_contains(id),
        forall|k: int|
            0 <= k < objects@.len() ==> sync_outcome(
                *old(reg),
                *final(reg),
                *final(arena),
                #[trigger] objects@[k],
            ),
        forall|k: int|
            0 <= k < objects@.len() ==> content_preserved(
                *old(reg),
                *old(arena),
                *final(arena),
                #[trigger] objects@[k],
            ),
{
    let ghost reg0 = *old(reg);
    let ghost arena0 = *old(arena);
    // Phase 1: release every changed record's old allocation.
    let mut k: usize = 0;
    while k < objects.len()
        invariant
            k <= objects@.len(),
            reg.keys_unique(),
            arena.wf(),
            synced(*reg, *arena),
            arena.capacity == arena0.capacity,
            arena.store@ == arena0.store@,
            arena0 == *old(arena),
            reg0 == *old(reg),
            reg0.keys_unique(),
            objects_wf(objects@),
            forall|k2: int|
                0 <= k2 < objects@.len() ==> reg0.spec_contains((#[trigger] objects@[k2]).id),
            forall|k2: int|
                0 <= k2 < objects@.len() ==> match reg0.spec_get((#[trigger] objects@[k2]).id) {
                    Some(p) => p.point_count == objects@[k2].points@.len(),
                    None => true,
                },
            forall|id: u64| #[trigger] reg.spec_contains(id) <==> reg0.spec_contains(id),
            forall|m: int| 0 <= m < k ==> sync_released(reg0, *reg, #[trigger] objects@[m]),
            forall|m: int|
                k <= m < objects@.len() ==> #[trigger] reg.spec_get(objects@[m].id)
                    == reg0.spec_get(objects@[m].id),
        decreases objects@.len() - k,
    {
        let ghost o = objects@[k as int];
        let id = objects[k].id;
        let i = match reg.find_entry(id) {
            Some(i) => i,
            None => {
                proof {
                    assert(reg0.spec_contains(id));
                    assert(reg.spec_contains(id));
                }
                unreached()
            },
        };
        let p = reg.entries[i].1;
        proof {
            reg.lemma_get_at(i as int);
            assert(reg.spec_get(id) == Some(p));
            assert(reg0.spec_get(id) == Some(p));
        }
        if p.changed {
            let ghost reg_pre = *reg;
            release_record(reg, arena, i);
            proof {
                let rec = reg.entries@[i as int].1;
                assert(reg.entries@[i as int] == (reg_pre.entries@[i as int].0, rec));
                crate::registry::lemma_update_entry(
                    reg_pre,
                    *reg,
                    i as int,
                    (reg_pre.entries@[i as int].0, rec),
                );
                assert(reg.spec_get(id) == Some(rec));
                assert(sync_released(reg0, *reg, o));
                assert forall|m: int|
                    0 <= m < objects@.len() && m != k implies (
                #[trigger] objects@[m]).id != id && reg.spec_get(objects@[m].id)
                    == reg_pre.spec_get(objects@[m].id) by {}
                assert forall|m: int| 0 <= m < k implies sync_released(
                    reg0,
                    *reg,
                    #[trigger] objects@[m],
                ) by {
                    assert(sync_released(reg0, reg_pre, objects@[m]));
                }
            }
        } else {
            proof {
                assert(sync_released(reg0, *reg, o));
            }
        }
        k = k + 1;
    }
    let ghost reg1 = *reg;
    let ghost arena1 = *arena;
    // Phase 2: upload each changed record in order; gaps only shrink now.
    let mut k2: usize = 0;
    while k2 < objects.len()
        invariant
            k2 <= objects@.len(),
            reg.keys_unique(),
            arena.wf(),
            synced(*reg, *arena),
            arena.capacity == arena0.capacity,
            arena0 == *old(arena),
            reg0 == *old(reg),
            reg0.keys_unique(),
            reg1.keys_unique(),
            arena1.store@ == arena0.store@,
            arena1.capacity == arena0.capacity,
            objects_wf(objects@),
            forall|k3: int|
                0 <= k3 < objects@.len() ==> reg0.spec_contains((#[trigger] objects@[k3]).id),
            forall|k3: int|
                0 <= k3 < objects@.len() ==> match reg0.spec_get((#[trigger] objects@[k3]).id) {
                    Some(p) => p.point_count == objects@[k3].points@.len(),
                    None => true,
                },
            forall|m: int| 0 <= m < objects@.len() ==> sync_released(
                reg0,
                reg1,
                #[trigger] objects@[m],
            ),
            forall|id: u64| #[trigger] reg.spec_contains(id) <==> reg0.spec_contains(id),
            forall|m: int|
                0 <= m < k2 ==> sync_outcome(reg0, *reg, *arena, #[trigger] objects@[m])
                    && content_preserved(reg0, arena0, *arena, objects@[m]),
            forall|m: int|
                k2 <= m < objects@.len() ==> #[trigger] reg.spec_get(objects@[m].id)
                    == reg1.spec_get(objects@[m].id),
            forall|m: int|
                k2 <= m < objects@.len() ==> match reg0.spec_get((#[trigger] objects@[m]).id) {
                    Some(p) => !p.changed ==> match p.allocation {
                        Some(b) => arena.stored(b) == arena0.stored(b),
                        None => true,
                    },
                    None => true,
                },
        decreases objects@.len() - k2,
    {
        let ghost o = objects@[k2 as int];
        let id = objects[k2].id;
        let i = match reg.find_entry(id) {
            Some(i) => i,
            None => {
                proof {
                    assert(reg0.spec_contains(id));
                    assert(reg.spec_contains(id));
                }
                unreached()
            },
        };
        let q = reg.entries[i].1;
        proof {
            reg.lemma_get_at(i as int);
            assert(reg.spec_get(id) == Some(q));
            assert(reg1.spec_get(id) == Some(q));
            assert(sync_released(reg0, reg1, o));
        }
        if q.changed {
            let ghost reg_pre = *reg;
            let ghost arena_pre = *arena;
            upload_record(reg, arena, i, &objects[k2].points);
            proof {
                let p0 = reg0.spec_get(id).unwrap();
                let rec = reg.entries@[i as int].1;
                assert(reg.entries@[i as int] == (reg_pre.entries@[i as int].0, rec));
                crate::registry::lemma_update_entry(
                    reg_pre,
                    *reg,
                    i as int,
                    (reg_pre.entries@[i as int].0, rec),
                );
                assert(reg.spec_get(id) == Some(rec));
                assert(uploaded_record(q, rec, *arena, o.points@));
                assert(uploaded_record(p0, rec, *arena, o.points@));
                assert(sync_outcome(reg0, *reg, *arena, o));
                assert forall|m: int|
                    0 <= m < objects@.len() && m != k2 implies (
                #[trigger] objects@[m]).id != id && reg.spec_get(objects@[m].id)
                    == reg_pre.spec_get(objects@[m].id) by {}
                // stored samples of every other record's allocation are kept
                assert forall|m: int|
                    0 <= m < objects@.len() && m != k2 implies match reg_pre.spec_get(
                    (#[trigger] objects@[m]).id,
                ) {
                    Some(pm) => match pm.allocation {
                        Some(b) => arena.stored(b) == arena_pre.stored(b),
                        None => true,
                    },
                    None => true,
                } by {
                    match reg_pre.spec_get(objects@[m].id) {
                        Some(pm) => {
                            match pm.allocation {
                                Some(b) => {
                                    let j = reg_pre.index_of_key(objects@[m].id);
                                    reg_pre.lemma_get_at(j);
                                    assert(reg_pre.entries@[j].1 == pm);
                                    assert(j != i);
                                },
                                None => {},
                            }
                        },
                        None => {},
                    }
                }
                assert forall|m: int|
                    0 <= m < k2 implies sync_outcome(reg0, *reg, *arena, #[trigger] objects@[m])
                    && content_preserved(reg0, arena0, *arena, objects@[m]) by {
                    assert(sync_outcome(reg0, reg_pre, arena_pre, objects@[m]));
                    let pm = reg0.spec_get(objects@[m].id).unwrap();
                    if pm.changed {
                        let rm = reg.spec_get(objects@[m].id).unwrap();
                        assert(uploaded_record(pm, rm, arena_pre, objects@[m].points@));
                        if rm.allocation is None && pm.point_count > 0 {
                            assert(all_gaps_below(arena_pre.gaps@, pm.point_count as int));
                            assert(all_gaps_below(arena.gaps@, pm.point_count as int));
                        }
                        assert(uploaded_record(pm, rm, *arena, objects@[m].points@));
                    }
                }
                assert forall|m: int|
                    k2 + 1 <= m < objects@.len() implies #[trigger] reg.spec_get(objects@[m].id)
                    == reg1.spec_get(objects@[m].id) by {}
            }
        } else {
            proof {
                assert(q == reg0.spec_get(id).unwrap());
                assert(sync_outcome(reg0, *reg, *arena, o));
                assert(content_preserved(reg0, arena0, *arena, o));
            }
        }
        k2 = k2 + 1;
    }
}

} // verus!
