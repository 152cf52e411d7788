use point_cloud::arena::Allocation;
use point_cloud::batch::{BatchKey, DrawRequest};
use point_cloud::frame::{PointCloudState, ViewInput};
use point_cloud::registry::{InstanceRecord, PointCloudObject};
use point_cloud::sample::{Affine3, PointSample, Vec4Row};

fn row(x: u32, y: u32, z: u32, w: u32) -> Vec4Row {
    Vec4Row { x, y, z, w }
}

fn transform(seed: u32) -> Affine3 {
    Affine3 {
        r0: row(seed, seed + 1, seed + 2, seed + 3),
        r1: row(seed + 4, seed + 5, seed + 6, seed + 7),
        r2: row(seed + 8, seed + 9, seed + 10, seed + 11),
    }
}

fn points(n: u32, seed: u32) -> Vec<PointSample> {
    (0..n).map(|i| PointSample { x: seed + i, y: i, z: seed, w: 25 }).collect()
}

fn object(id: u64, t: Affine3, pts: Vec<PointSample>, version: u64) -> PointCloudObject {
    PointCloudObject { id, transform: t, points: pts, version }
}

fn record_of(state: &PointCloudState, id: u64) -> InstanceRecord {
    state
        .registry
        .entries
        .iter()
        .find(|e| e.0 == id)
        .map(|e| e.1)
        .expect("registry should hold the object")
}

fn key(pipeline: u64, draw_function: u64) -> BatchKey {
    BatchKey { pipeline, draw_function }
}

#[test]
fn new_object_is_allocated_and_uploaded_on_its_first_frame() {
    let mut state = PointCloudState::new(100);
    let objs = vec![object(7, transform(1), points(4, 50), 1)];
    state.run_frame(&objs, &vec![]);
    let rec = record_of(&state, 7);
    assert_eq!(rec.point_count, 4);
    assert_eq!(rec.version, 1);
    assert!(!rec.changed);
    let alloc = rec.allocation.expect("points should be uploaded");
    assert_eq!(alloc.length, 4);
    // the arena holds exactly the uploaded samples
    assert_eq!(state.arena.read_points(alloc), points(4, 50));
    // a new record starts with previous == current
    assert_eq!(rec.world_from_local, transform(1));
    assert_eq!(rec.previous_world_from_local, transform(1));
}

#[test]
fn transforms_roll_over_for_motion_vectors() {
    let mut state = PointCloudState::new(100);
    let objs1 = vec![object(1, transform(10), points(2, 0), 1)];
    state.run_frame(&objs1, &vec![]);
    let objs2 = vec![object(1, transform(20), points(2, 0), 1)];
    state.run_frame(&objs2, &vec![]);
    let rec = record_of(&state, 1);
    assert_eq!(rec.world_from_local, transform(20));
    assert_eq!(rec.previous_world_from_local, transform(10));
}

#[test]
fn unchanged_objects_are_not_reuploaded() {
    let mut state = PointCloudState::new(100);
    let objs = vec![object(1, transform(0), points(3, 9), 5)];
    state.run_frame(&objs, &vec![]);
    let alloc_before = record_of(&state, 1).allocation.unwrap();
    // same version next frame: the allocation is carried over untouched
    let objs2 = vec![object(1, transform(0), points(3, 9), 5)];
    state.run_frame(&objs2, &vec![]);
    let alloc_after = record_of(&state, 1).allocation.unwrap();
    assert_eq!(alloc_before, alloc_after);
    assert_eq!(state.arena.read_points(alloc_after), points(3, 9));
}

#[test]
fn removed_objects_leave_no_record_and_no_allocation() {
    // Objects removed from visibility lose their record and allocation by
    // the next reconcile pass: nothing leaks.
    let mut state = PointCloudState::new(100);
    let objs = vec![
        object(1, transform(0), points(10, 0), 1),
        object(2, transform(12), points(20, 7), 1),
    ];
    state.run_frame(&objs, &vec![]);
    assert_eq!(state.registry.entries.len(), 2);
    assert_eq!(state.arena.live.len(), 2);
    // object 1 vanishes
    let objs2 = vec![object(2, transform(12), points(20, 7), 1)];
    state.run_frame(&objs2, &vec![]);
    assert_eq!(state.registry.entries.len(), 1);
    assert_eq!(state.registry.entries[0].0, 2);
    assert_eq!(state.arena.live.len(), 1);
    // and the whole set vanishes
    state.run_frame(&vec![], &vec![]);
    assert!(state.registry.entries.is_empty());
    assert!(state.arena.live.is_empty());
    assert_eq!(state.arena.gaps, vec![Allocation { offset: 0, length: 100 }]);
}

#[test]
fn reappearing_object_gets_an_allocation_for_its_new_size() {
    // An object with 4 points goes invisible, then comes back with 6
    // points: the final allocation has length 6 and no length-4
    // allocation stays live.
    let mut state = PointCloudState::new(100);
    state.run_frame(&vec![object(3, transform(0), points(4, 1), 1)], &vec![]);
    assert_eq!(record_of(&state, 3).allocation.unwrap().length, 4);
    state.run_frame(&vec![], &vec![]);
    state.run_frame(&vec![object(3, transform(0), points(6, 2), 2)], &vec![]);
    let alloc = record_of(&state, 3).allocation.unwrap();
    assert_eq!(alloc.length, 6);
    assert_eq!(state.arena.live, vec![alloc]);
    assert!(state.arena.live.iter().all(|a| a.length != 4));
    assert_eq!(state.arena.read_points(alloc), points(6, 2));
}

#[test]
fn new_point_sequence_is_reuploaded_behind_a_fresh_allocation() {
    let mut state = PointCloudState::new(100);
    state.run_frame(&vec![object(1, transform(0), points(5, 1), 1)], &vec![]);
    // a new sequence identity with a new size triggers free + reallocate
    state.run_frame(&vec![object(1, transform(0), points(8, 2), 2)], &vec![]);
    let rec = record_of(&state, 1);
    assert_eq!(rec.point_count, 8);
    let alloc = rec.allocation.unwrap();
    assert_eq!(alloc.length, 8);
    assert_eq!(state.arena.read_points(alloc), points(8, 2));
    assert_eq!(state.arena.live, vec![alloc]);
}

#[test]
fn zero_point_objects_are_valid_and_draw_nothing() {
    let mut state = PointCloudState::new(100);
    let objs = vec![object(1, transform(0), vec![], 1)];
    let views = vec![ViewInput { requests: vec![DrawRequest { id: 1, key: key(1, 1) }] }];
    let out = state.run_frame(&objs, &views);
    let rec = record_of(&state, 1);
    assert_eq!(rec.point_count, 0);
    assert!(rec.allocation.is_none());
    assert!(out[0].draws.is_empty());
    assert!(out[0].batches.is_empty());
}

#[test]
fn exhaustion_skips_the_object_for_the_frame_and_recovers() {
    let mut state = PointCloudState::new(10);
    // too large for the arena: dropped from rendering, not a crash
    let objs = vec![object(1, transform(0), points(20, 0), 1)];
    let views = vec![ViewInput { requests: vec![DrawRequest { id: 1, key: key(1, 1) }] }];
    let out = state.run_frame(&objs, &views);
    let rec = record_of(&state, 1);
    assert!(rec.allocation.is_none());
    assert!(!rec.changed);
    assert!(out[0].draws.is_empty());
    // the object shrinks next frame and is uploaded
    let objs2 = vec![object(1, transform(0), points(6, 0), 2)];
    let out2 = state.run_frame(&objs2, &views);
    assert_eq!(record_of(&state, 1).allocation.unwrap().length, 6);
    assert_eq!(out2[0].draws.len(), 1);
}

#[test]
fn releases_precede_allocations_within_the_upload_stage() {
    // All changed records surrender their old allocations before any
    // upload allocates, so swapping sizes between two objects fits in a
    // full arena: neither upload is starved by the other's stale space.
    let mut state = PointCloudState::new(10);
    let objs = vec![
        object(1, transform(0), points(4, 1), 1),
        object(2, transform(12), points(6, 5), 1),
    ];
    state.run_frame(&objs, &vec![]);
    assert_eq!(record_of(&state, 1).allocation.unwrap().length, 4);
    assert_eq!(record_of(&state, 2).allocation.unwrap().length, 6);
    // both objects change size at once; the arena is exactly full
    let objs2 = vec![
        object(1, transform(0), points(6, 2), 2),
        object(2, transform(12), points(4, 6), 2),
    ];
    state.run_frame(&objs2, &vec![]);
    let a1 = record_of(&state, 1).allocation.expect("first upload should fit");
    let a2 = record_of(&state, 2).allocation.expect("second upload should fit");
    assert_eq!(a1.length, 6);
    assert_eq!(a2.length, 4);
    assert_eq!(state.arena.read_points(a1), points(6, 2));
    assert_eq!(state.arena.read_points(a2), points(4, 6));
    assert!(state.arena.gaps.is_empty());
}

#[test]
fn shared_keys_merge_into_one_batch() {
    // Two objects sharing a pipeline key merge into one batch; a third
    // object with a different key forms a second batch; the total draw
    // count across batches equals the number of visible objects.
    let mut state = PointCloudState::new(100);
    let objs = vec![
        object(1, transform(0), points(2, 0), 1),
        object(2, transform(12), points(3, 5), 1),
        object(3, transform(24), points(4, 9), 1),
    ];
    let shared = key(7, 1);
    let other = key(8, 1);
    let views = vec![ViewInput {
        requests: vec![
            DrawRequest { id: 1, key: shared },
            DrawRequest { id: 2, key: shared },
            DrawRequest { id: 3, key: other },
        ],
    }];
    let out = state.run_frame(&objs, &views);
    let view = &out[0];
    assert_eq!(view.draws.len(), 3);
    assert_eq!(view.uniforms.len(), 3);
    assert_eq!(view.batches.len(), 2);
    assert_eq!(view.batches[0].key, shared);
    assert_eq!((view.batches[0].start, view.batches[0].end), (0, 2));
    assert_eq!(view.batches[1].key, other);
    assert_eq!((view.batches[1].start, view.batches[1].end), (2, 3));
    let total: usize = view.batches.iter().map(|b| b.end - b.start).sum();
    assert_eq!(total, view.draws.len());
}

#[test]
fn shared_keys_merge_even_when_not_adjacent() {
    // grouping is global: records sharing a key merge into one batch even
    // with a different key between them in registry order
    let mut state = PointCloudState::new(100);
    let objs = vec![
        object(1, transform(0), points(1, 0), 1),
        object(2, transform(12), points(2, 5), 1),
        object(3, transform(24), points(3, 9), 1),
    ];
    let alpha = key(1, 1);
    let beta = key(2, 1);
    let views = vec![ViewInput {
        requests: vec![
            DrawRequest { id: 1, key: alpha },
            DrawRequest { id: 2, key: beta },
            DrawRequest { id: 3, key: alpha },
        ],
    }];
    let out = state.run_frame(&objs, &views);
    let view = &out[0];
    assert_eq!(view.batches.len(), 2);
    assert_eq!(view.batches[0].key, alpha);
    assert_eq!((view.batches[0].start, view.batches[0].end), (0, 2));
    assert_eq!(view.batches[1].key, beta);
    assert_eq!((view.batches[1].start, view.batches[1].end), (2, 3));
    // the alpha batch holds objects 1 and 3 in registry order, then beta's
    assert_eq!(view.draws[0].vertex_count, 6);
    assert_eq!(view.draws[1].vertex_count, 18);
    assert_eq!(view.draws[2].vertex_count, 12);
    assert_eq!(view.uniforms[1].world_from_local, transform(24));
}

#[test]
fn draw_and_uniform_lists_stay_index_aligned() {
    let mut state = PointCloudState::new(100);
    let objs = vec![
        object(1, transform(0), points(2, 0), 1),
        object(2, transform(12), points(3, 5), 1),
    ];
    let views = vec![ViewInput {
        requests: vec![
            DrawRequest { id: 1, key: key(1, 1) },
            DrawRequest { id: 2, key: key(1, 1) },
        ],
    }];
    let out = state.run_frame(&objs, &views);
    let view = &out[0];
    for (i, draw) in view.draws.iter().enumerate() {
        assert_eq!(draw.instance_count, 1);
        assert_eq!(draw.first_instance, i as u32);
    }
    // six vertex references per point, in registry order within the batch
    assert_eq!(view.draws[0].vertex_count, 12);
    assert_eq!(view.draws[1].vertex_count, 18);
    // each draw starts at its allocation's buffer offset, in vertex units
    assert_eq!(view.draws[0].first_vertex, 0);
    assert_eq!(view.draws[1].first_vertex, 12);
    assert_eq!(view.uniforms[0].world_from_local, transform(0));
    assert_eq!(view.uniforms[1].world_from_local, transform(12));
}

#[test]
fn objects_without_requests_are_not_drawn() {
    let mut state = PointCloudState::new(100);
    let objs = vec![
        object(1, transform(0), points(2, 0), 1),
        object(2, transform(12), points(3, 5), 1),
    ];
    // the view's visibility collaborator only passed object 2
    let views = vec![ViewInput { requests: vec![DrawRequest { id: 2, key: key(1, 1) }] }];
    let out = state.run_frame(&objs, &views);
    assert_eq!(out[0].draws.len(), 1);
    assert_eq!(out[0].draws[0].vertex_count, 18);
}

#[test]
fn each_view_gets_its_own_lists() {
    let mut state = PointCloudState::new(100);
    let objs = vec![
        object(1, transform(0), points(2, 0), 1),
        object(2, transform(12), points(3, 5), 1),
    ];
    let views = vec![
        ViewInput {
            requests: vec![
                DrawRequest { id: 1, key: key(1, 1) },
                DrawRequest { id: 2, key: key(1, 1) },
            ],
        },
        ViewInput { requests: vec![DrawRequest { id: 1, key: key(2, 1) }] },
        ViewInput { requests: vec![] },
    ];
    let out = state.run_frame(&objs, &views);
    assert_eq!(out.len(), 3);
    assert_eq!(out[0].draws.len(), 2);
    assert_eq!(out[1].draws.len(), 1);
    assert!(out[2].draws.is_empty());
    assert!(out[2].batches.is_empty());
}
