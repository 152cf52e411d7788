//! The batch assembler: per view, one indirect-draw descriptor and one
//! per-instance uniform record for every registry record that has an arena
//! allocation and a draw request from the view's visibility and material
//! collaborators. The two output buffers stay index-aligned: entry `i` of
//! the draw list and entry `i` of the uniform list describe the same
//! instance, and the draw's `first_instance` is `i` itself.
//!
//! Entries are grouped by their pipeline key (pipeline identity plus draw
//! function identity): all entries sharing a key form exactly one batch, a
//! contiguous range of the output; distinct keys give distinct batches, in
//! first-appearance order. Submission order is irrelevant to the composited
//! image (the compositor tolerates any order), but the grouping is stable
//! within a frame so the buffers stay aligned.

use vstd::prelude::*;
use vstd::pervasive::VecAdditionalExecFns;

use crate::registry::{InstanceRecord, InstanceRegistry};
use crate::sample::Affine3;

verus! {

/// One GPU indirect-draw descriptor, in the four-field layout indirect
/// draw buffers use. Six vertex references per point: each splat is two
/// camera-facing triangles.
#[derive(Clone, Copy, Debug, PartialEq, Eq, Structural)]
pub struct DrawIndirect {
    pub vertex_count: u32,
    pub instance_count: u32,
    pub first_vertex: u32,
    pub first_instance: u32,
}

/// The per-instance uniform record: the current and previous world
/// transform, in the bit-stable two-times-3x4 layout the motion-vector
/// shading reads.
#[derive(Clone, Copy, Debug, PartialEq, Eq, Structural)]
pub struct InstanceUniform {
    pub world_from_local: Affine3,
    pub previous_world_from_local: Affine3,
}

/// The identity that groups draws into batches: the specialized pipeline
/// and the draw function, both opaque handles picked by the material
/// collaborator.
#[derive(Clone, Copy, Debug, PartialEq, Eq, Structural)]
pub struct BatchKey {
    pub pipeline: u64,
    pub draw_function: u64,
}

/// One draw request from the view's collaborators: the object passed the
/// view's visibility test and was assigned a pipeline key.
#[derive(Clone, Copy, Debug, PartialEq, Eq, Structural)]
pub struct DrawRequest {
    pub id: u64,
    pub key: BatchKey,
}

/// One batch: a contiguous, non-empty range of the draw and uniform lists
/// whose entries all carry the same key.
#[derive(Clone, Copy, Debug, PartialEq, Eq, Structural)]
pub struct DrawBatch {
    pub key: BatchKey,
    pub start: usize,
    pub end: usize,
}

/// The per-view output of the assembler, rebuilt every frame.
pub struct AssembledView {
    pub draws: Vec<DrawIndirect>,
    pub uniforms: Vec<InstanceUniform>,
    pub batches: Vec<DrawBatch>,
}

/// No two requests name the same object.
pub open spec fn requests_unique(reqs: Seq<DrawRequest>) -> bool {
    forall|i: int, j: int|
        0 <= i < j < reqs.len() ==> (#[trigger] reqs[i]).id != (#[trigger] reqs[j]).id
}

/// Whether some request names `id`.
pub open spec fn has_request(reqs: Seq<DrawRequest>, id: u64) -> bool {
    exists|i: int| 0 <= i < reqs.len() && (#[trigger] reqs[i]).id == id
}

/// The key the view assigned to `id`, if it has a request.
pub open spec fn request_key(reqs: Seq<DrawRequest>, id: u64) -> Option<BatchKey> {
    if has_request(reqs, id) {
        Some(reqs[choose|i: int| 0 <= i < reqs.len() && (#[trigger] reqs[i]).id == id].key)
    } else {
        None
    }
}

/// The selected instances of a view, in registry order: records that hold
/// an allocation and have a draw request, paired with their key.
pub open spec fn selected_of(
    entries: Seq<(u64, InstanceRecord)>,
    reqs: Seq<DrawRequest>,
) -> Seq<(InstanceRecord, BatchKey)>
    decreases entries.len(),
{
    if entries.len() == 0 {
        Seq::<(InstanceRecord, BatchKey)>::empty()
    } else {
        let front = selected_of(entries.drop_last(), reqs);
        match (entries.last().1.allocation, request_key(reqs, entries.last().0)) {
            (Some(_), Some(k)) => front + seq![(entries.last().1, k)],
            _ => front,
        }
    }
}

/// The selected entries carrying a given key, in order.
pub open spec fn key_filter(
    s: Seq<(InstanceRecord, BatchKey)>,
    k: BatchKey,
) -> Seq<(InstanceRecord, BatchKey)>
    decreases s.len(),
{
    if s.len() == 0 {
        Seq::<(InstanceRecord, BatchKey)>::empty()
    } else {
        let front = key_filter(s.drop_last(), k);
        if s.last().1 == k {
            front + seq![s.last()]
        } else {
            front
        }
    }
}

/// Index `d` is the first occurrence of its key in the selection.
pub open spec fn first_occurrence(s: Seq<(InstanceRecord, BatchKey)>, d: int) -> bool {
    forall|e: int| 0 <= e < d ==> (#[trigger] s[e]).1 != s[d].1
}

/// The selection regrouped by key: for each first-appearance key in order,
/// every selected entry carrying that key.
pub open spec fn grouped_upto(s: Seq<(InstanceRecord, BatchKey)>, d: int) -> Seq<
    (InstanceRecord, BatchKey),
>
    decreases d,
{
    if d <= 0 {
        Seq::<(InstanceRecord, BatchKey)>::empty()
    } else {
        grouped_upto(s, d - 1) + (if 0 <= d - 1 < s.len() && first_occurrence(s, d - 1) {
            key_filter(s, s[d - 1].1)
        } else {
            Seq::<(InstanceRecord, BatchKey)>::empty()
        })
    }
}

pub open spec fn grouped(s: Seq<(InstanceRecord, BatchKey)>) -> Seq<(InstanceRecord, BatchKey)> {
    grouped_upto(s, s.len() as int)
}

/// The buffer offset of an instance's points, in vertex references (six
/// per point): where in the arena the draw's vertices start.
pub open spec fn vertex_offset(rec: InstanceRecord) -> int {
    match rec.allocation {
        Some(a) => a.offset * 6,
        None => 0,
    }
}

/// The draw descriptor for the instance at output index `i`: the point
/// count in vertex references, one instance, the buffer offset, and the
/// uniform slot index.
pub open spec fn draw_of(rec: InstanceRecord, i: int) -> DrawIndirect {
    DrawIndirect {
        vertex_count: (rec.point_count * 6) as u32,
        instance_count: 1,
        first_vertex: vertex_offset(rec) as u32,
        first_instance: i as u32,
    }
}

/// The uniform record for an instance.
pub open spec fn uniform_of(rec: InstanceRecord) -> InstanceUniform {
    InstanceUniform {
        world_from_local: rec.world_from_local,
        previous_world_from_local: rec.previous_world_from_local,
    }
}

/// The batches cover the draw list exactly: consecutive, non-empty,
/// starting at zero and ending at the list's length.
pub open spec fn batches_partition(bs: Seq<DrawBatch>, n: int) -> bool {
    &&& forall|b: int|
        0 <= b < bs.len() ==> (#[trigger] bs[b]).start < bs[b].end && bs[b].end <= n
    &&& forall|b: int| 0 < b < bs.len() ==> (#[trigger] bs[b]).start == bs[b - 1].end
    &&& (bs.len() == 0 ==> n == 0)
    &&& (bs.len() > 0 ==> bs[0].start == 0 && bs[bs.len() - 1].end == n)
}

/// The number of set flags.
pub open spec fn count_true(s: Seq<bool>) -> int
    decreases s.len(),
{
    if s.len() == 0 {
        0
    } else {
        count_true(s.drop_last()) + (if s.last() {
            1int
        } else {
            0int
        })
    }
}

pub proof fn lemma_count_true_update(s: Seq<bool>, i: int)
    requires
        0 <= i < s.len(),
        !s[i],
    ensures
        count_true(s.update(i, true)) == count_true(s) + 1,
    decreases s.len(),
{
    if i == s.len() - 1 {
        assert(s.update(i, true).drop_last() =~= s.drop_last());
    } else {
        assert(s.update(i, true).drop_last() =~= s.drop_last().update(i, true));
        lemma_count_true_update(s.drop_last(), i);
    }
}

pub proof fn lemma_count_true_full(s: Seq<bool>)
    requires
        forall|i: int| 0 <= i < s.len() ==> #[trigger] s[i],
    ensures
        count_true(s) == s.len(),
    decreases s.len(),
{
    if s.len() > 0 {
        lemma_count_true_full(s.drop_last());
    }
}

pub proof fn lemma_count_true_bound(s: Seq<bool>)
    ensures
        count_true(s) <= s.len(),
    decreases s.len(),
{
    if s.len() > 0 {
        lemma_count_true_bound(s.drop_last());
    }
}

/// Any occurrence of a key is preceded (not strictly) by a first
/// occurrence of the same key.
pub proof fn lemma_first_occurrence_exists(s: Seq<(InstanceRecord, BatchKey)>, e: int)
    requires
        0 <= e < s.len(),
    ensures
        exists|d: int|
            0 <= d <= e && #[trigger] first_occurrence(s, d) && s[d].1 == s[e].1,
    decreases e,
{
    if first_occurrence(s, e) {
        assert(0 <= e <= e && first_occurrence(s, e) && s[e].1 == s[e].1);
    } else {
        let e2 = choose|e2: int| 0 <= e2 < e && (#[trigger] s[e2]).1 == s[e].1;
        lemma_first_occurrence_exists(s, e2);
        let d = choose|d: int|
            0 <= d <= e2 && #[trigger] first_occurrence(s, d) && s[d].1 == s[e2].1;
        assert(0 <= d <= e && first_occurrence(s, d) && s[d].1 == s[e].1);
    }
}

/// With unique request ids, the request at any index with a matching id is
/// the one `request_key` denotes.
pub proof fn lemma_request_at(reqs: Seq<DrawRequest>, i: int)
    requires
        requests_unique(reqs),
        0 <= i < reqs.len(),
    ensures
        has_request(reqs, reqs[i].id),
        request_key(reqs, reqs[i].id) == Some(reqs[i].key),
{
    let id = reqs[i].id;
    assert(has_request(reqs, id));
    let j = choose|j: int| 0 <= j < reqs.len() && (#[trigger] reqs[j]).id == id;
    if i < j {
        assert(reqs[i].id != reqs[j].id);
    } else if j < i {
        assert(reqs[j].id != reqs[i].id);
    }
}

/// The key assigned to an object by the view's requests, if any.
fn request_for(requests: &Vec<DrawRequest>, id: u64) -> (r: Option<BatchKey>)
    requires
        requests_unique(requests@),
    ensures
        r == request_key(requests@, id),
{
    let mut i: usize = 0;
    while i < requests.len()
        invariant
            i <= requests@.len(),
            requests_unique(requests@),
            forall|j: int| 0 <= j < i ==> (#[trigger] requests@[j]).id != id,
        decreases requests@.len() - i,
    {
        if requests[i].id == id {
            proof {
                lemma_request_at(requests@, i as int);
            }
            return Some(requests[i].key);
        }
        i = i + 1;
    }
    proof {
        assert(!has_request(requests@, id));
    }
    None
}

/// Every entry of a key filter carries that key.
pub proof fn lemma_key_filter_keys(s: Seq<(InstanceRecord, BatchKey)>, k: BatchKey)
    ensures
        forall|i: int| 0 <= i < key_filter(s, k).len() ==> (#[trigger] key_filter(s, k)[i]).1 == k,
    decreases s.len(),
{
    if s.len() > 0 {
        lemma_key_filter_keys(s.drop_last(), k);
        let front = key_filter(s.drop_last(), k);
        assert forall|i: int| 0 <= i < key_filter(s, k).len() implies (#[trigger] key_filter(
            s,
            k,
        )[i]).1 == k by {
            if i < front.len() {
                assert(key_filter(s, k)[i] == front[i]);
            }
        }
    }
}

/// A key that occurs in the selection has a non-empty filter.
pub proof fn lemma_key_filter_len_at(s: Seq<(InstanceRecord, BatchKey)>, k: BatchKey, d: int)
    requires
        0 <= d < s.len(),
        s[d].1 == k,
    ensures
        key_filter(s, k).len() >= 1,
    decreases s.len(),
{
    if d < s.len() - 1 {
        lemma_key_filter_len_at(s.drop_last(), k, d);
    }
}

/// The key of entry `e` already belongs to a batch after the first `d`
/// positions have been walked.
pub open spec fn key_batched(s: Seq<(InstanceRecord, BatchKey)>, d: int, e: int) -> bool {
    exists|d2: int| 0 <= d2 < d && #[trigger] first_occurrence(s, d2) && s[d2].1 == s[e].1
}

/// The assembler's full contract: the outputs equal the mathematical
/// regrouping `grouped` of the selection `selected_of` — one draw and one
/// uniform per selected instance, index-aligned, `first_instance` equal to
/// the output index, and one batch per distinct key covering exactly that
/// key's contiguous range.
pub open spec fn view_assembled(
    entries: Seq<(u64, InstanceRecord)>,
    reqs: Seq<DrawRequest>,
    out: AssembledView,
) -> bool {
    let sel = selected_of(entries, reqs);
    let g = grouped(sel);
    &&& out.draws@.len() == sel.len()
    &&& out.uniforms@.len() == sel.len()
    &&& g.len() == sel.len()
    &&& out.draws@ == Seq::new(g.len(), |i: int| draw_of(g[i].0, i))
    &&& out.uniforms@ == Seq::new(g.len(), |i: int| uniform_of(g[i].0))
    &&& batches_partition(out.batches@, out.draws@.len() as int)
    &&& forall|b: int, i: int|
        0 <= b < out.batches@.len() && (#[trigger] out.batches@[b]).start <= i
            < out.batches@[b].end ==> (#[trigger] g[i]).1 == out.batches@[b].key
    &&& forall|b1: int, b2: int|
        0 <= b1 < b2 < out.batches@.len() ==> (#[trigger] out.batches@[b1]).key != (
        #[trigger] out.batches@[b2]).key
}

/// Assemble one view: select every record that has an allocation and a
/// draw request, group the selection by key, and emit the index-aligned
/// draw and uniform lists with their batches.
#[verifier::rlimit(100)]
#[verifier::spinoff_prover]
pub fn assemble_view(reg: &InstanceRegistry, requests: &Vec<DrawRequest>) -> (out: AssembledView)
    requires
        requests_unique(requests@),
        reg.entries@.len() <= u32::MAX,
        forall|j: int|
            0 <= j < reg.entries@.len() ==> (#[trigger] reg.entries@[j]).1.point_count * 6
                <= u32::MAX,
        forall|j: int|
            0 <= j < reg.entries@.len() ==> vertex_offset(#[trigger] reg.entries@[j].1)
                <= u32::MAX,
    ensures
        view_assembled(reg.entries@, requests@, out),
{
    // Pass 1: select, in registry order.
    let mut sel_vec: Vec<(InstanceRecord, BatchKey)> = Vec::new();
    let mut i: usize = 0;
    proof {
        assert(reg.entries@.take(0) =~= Seq::<(u64, InstanceRecord)>::empty());
    }
    while i < reg.entries.len()
        invariant
            i <= reg.entries@.len(),
            requests_unique(requests@),
            forall|j: int|
                0 <= j < reg.entries@.len() ==> (#[trigger] reg.entries@[j]).1.point_count * 6
                    <= u32::MAX,
            forall|j: int|
                0 <= j < reg.entries@.len() ==> vertex_offset(#[trigger] reg.entries@[j].1)
                    <= u32::MAX,
            sel_vec@ == selected_of(reg.entries@.take(i as int), requests@),
            sel_vec@.len() <= i,
            forall|x: int|
                0 <= x < sel_vec@.len() ==> (#[trigger] sel_vec@[x]).0.point_count * 6 <= u32::MAX
                    && vertex_offset(sel_vec@[x].0) <= u32::MAX,
        decreases reg.entries@.len() - i,
    {
        let entry = reg.entries[i];
        proof {
            assert(reg.entries@.take(i as int + 1).drop_last() =~= reg.entries@.take(i as int));
            assert(reg.entries@.take(i as int + 1).last() == reg.entries@[i as int]);
        }
        let has_alloc = entry.1.allocation.is_some();
        if has_alloc {
            match request_for(requests, entry.0) {
                Some(k) => {
                    proof {
                        assert(selected_of(reg.entries@.take(i as int + 1), requests@)
                            =~= sel_vec@ + seq![(entry.1, k)]);
                        assert(sel_vec@.push((entry.1, k)) =~= sel_vec@ + seq![(entry.1, k)]);
                    }
                    sel_vec.push((entry.1, k));
                },
                None => {},
            }
        }
        i = i + 1;
    }
    proof {
        assert(reg.entries@.take(reg.entries@.len() as int) =~= reg.entries@);
    }
    let ghost sel = sel_vec@;
    // Pass 2: group by key, first-appearance order.
    let mut draws: Vec<DrawIndirect> = Vec::new();
    let mut uniforms: Vec<InstanceUniform> = Vec::new();
    let mut batches: Vec<DrawBatch> = Vec::new();
    let mut emitted: Vec<bool> = Vec::new();
    let mut z: usize = 0;
    while z < sel_vec.len()
        invariant
            z <= sel.len(),
            sel_vec@ == sel,
            emitted@.len() == z,
            forall|x: int| 0 <= x < z ==> !(#[trigger] emitted@[x]),
        decreases sel.len() - z,
    {
        emitted.push(false);
        z = z + 1;
    }
    proof {
        assert(count_true(emitted@) == 0) by {
            lemma_count_true_zero(emitted@);
        }
        assert(grouped_upto(sel, 0) =~= Seq::<(InstanceRecord, BatchKey)>::empty());
        assert(draws@ =~= Seq::new(grouped_upto(sel, 0).len(), |x: int| draw_of(
            grouped_upto(sel, 0)[x].0,
            x,
        )));
        assert(uniforms@ =~= Seq::new(grouped_upto(sel, 0).len(), |x: int| uniform_of(
            grouped_upto(sel, 0)[x].0,
        )));
    }
    let mut d: usize = 0;
    while d < sel_vec.len()
        invariant
            d <= sel.len(),
            sel_vec@ == sel,
            sel.len() <= u32::MAX,
            forall|x: int| 0 <= x < sel.len() ==> (#[trigger] sel[x]).0.point_count * 6
                <= u32::MAX && vertex_offset(sel[x].0) <= u32::MAX,
            emitted@.len() == sel.len(),
            forall|e: int| 0 <= e < sel.len() ==> #[trigger] emitted@[e] == key_batched(
                sel,
                d as int,
                e,
            ),
            draws@.len() == count_true(emitted@),
            uniforms@.len() == draws@.len(),
            draws@ == Seq::new(grouped_upto(sel, d as int).len(), |x: int| draw_of(
                grouped_upto(sel, d as int)[x].0,
                x,
            )),
            uniforms@ == Seq::new(grouped_upto(sel, d as int).len(), |x: int| uniform_of(
                grouped_upto(sel, d as int)[x].0,
            )),
            batches_partition(batches@, draws@.len() as int),
            forall|b: int, x: int|
                0 <= b < batches@.len() && (#[trigger] batches@[b]).start <= x < batches@[b].end
                    ==> (#[trigger] grouped_upto(sel, d as int)[x]).1 == batches@[b].key,
            forall|b: int|
                0 <= b < batches@.len() ==> exists|d2: int|
                    0 <= d2 < d && #[trigger] first_occurrence(sel, d2) && sel[d2].1 == (
                    #[trigger] batches@[b]).key,
            forall|b1: int, b2: int|
                0 <= b1 < b2 < batches@.len() ==> (#[trigger] batches@[b1]).key != (
                #[trigger] batches@[b2]).key,
        decreases sel.len() - d,
    {
        let ghost g_pre = grouped_upto(sel, d as int);
        let is_done = emitted[d];
        if !is_done {
            proof {
                if !first_occurrence(sel, d as int) {
                    let e0 = choose|e0: int| 0 <= e0 < d && (#[trigger] sel[e0]).1 == sel[d as int].1;
                    lemma_first_occurrence_exists(sel, e0);
                    let d2 = choose|d2: int|
                        0 <= d2 <= e0 && #[trigger] first_occurrence(sel, d2) && sel[d2].1
                            == sel[e0].1;
                    assert(key_batched(sel, d as int, d as int));
                }
                assert(first_occurrence(sel, d as int));
            }
            let k = sel_vec[d].1;
            let start = draws.len();
            let ghost emitted_pre = emitted@;
            let mut e: usize = 0;
            proof {
                assert(key_filter(sel.take(0), k) =~= Seq::<(InstanceRecord, BatchKey)>::empty());
                assert(g_pre + key_filter(sel.take(0), k) =~= g_pre);
            }
            while e < sel_vec.len()
                invariant
                    e <= sel.len(),
                    sel_vec@ == sel,
                    sel.len() <= u32::MAX,
                    forall|x: int| 0 <= x < sel.len() ==> (#[trigger] sel[x]).0.point_count * 6
                        <= u32::MAX && vertex_offset(sel[x].0) <= u32::MAX,
                    d < sel.len(),
                    k == sel[d as int].1,
                    first_occurrence(sel, d as int),
                    emitted@.len() == sel.len(),
                    forall|x: int| 0 <= x < sel.len() ==> #[trigger] emitted@[x] == (
                        emitted_pre[x] || (x < e && sel[x].1 == k)),
                    forall|x: int| 0 <= x < sel.len() ==> #[trigger] emitted_pre[x]
                        == key_batched(sel, d as int, x),
                    draws@.len() == count_true(emitted@),
                    uniforms@.len() == draws@.len(),
                    draws@ == Seq::new((g_pre + key_filter(sel.take(e as int), k)).len(), |x: int|
                        draw_of((g_pre + key_filter(sel.take(e as int), k))[x].0, x)),
                    uniforms@ == Seq::new(
                        (g_pre + key_filter(sel.take(e as int), k)).len(),
                        |x: int| uniform_of((g_pre + key_filter(sel.take(e as int), k))[x].0),
                    ),
                    start == g_pre.len(),
                    batches_partition(batches@, start as int),
                    forall|b: int, x: int|
                        0 <= b < batches@.len() && (#[trigger] batches@[b]).start <= x
                            < batches@[b].end ==> (#[trigger] g_pre[x]).1 == batches@[b].key,
                    forall|b: int|
                        0 <= b < batches@.len() ==> exists|d2: int|
                            0 <= d2 < d && #[trigger] first_occurrence(sel, d2) && sel[d2].1 == (
                            #[trigger] batches@[b]).key,
                    forall|b1: int, b2: int|
                        0 <= b1 < b2 < batches@.len() ==> (#[trigger] batches@[b1]).key != (
                        #[trigger] batches@[b2]).key,
                decreases sel.len() - e,
            {
                let ghost gf = g_pre + key_filter(sel.take(e as int), k);
                proof {
                    assert(sel.take(e as int + 1).drop_last() =~= sel.take(e as int));
                    assert(sel.take(e as int + 1).last() == sel[e as int]);
                }
                if sel_vec[e].1 == k {
                    proof {
                        assert(!emitted_pre[e as int]) by {
                            if key_batched(sel, d as int, e as int) {
                                let d2 = choose|d2: int|
                                    0 <= d2 < d && #[trigger] first_occurrence(sel, d2)
                                        && sel[d2].1 == sel[e as int].1;
                                assert(sel[d2].1 == sel[d as int].1);
                            }
                        }
                        assert(!emitted@[e as int]);
                        lemma_count_true_update(emitted@, e as int);
                        lemma_count_true_bound(emitted@);
                        assert(key_filter(sel.take(e as int + 1), k) =~= key_filter(
                            sel.take(e as int),
                            k,
                        ) + seq![sel[e as int]]);
                        assert(g_pre + key_filter(sel.take(e as int + 1), k) =~= gf
                            + seq![sel[e as int]]);
                    }
                    let rec = sel_vec[e].0;
                    let idx = draws.len() as u32;
                    let buffer_offset = match rec.allocation {
                        Some(a) => a.offset * 6,
                        None => 0,
                    };
                    draws.push(DrawIndirect {
                        vertex_count: rec.point_count * 6,
                        instance_count: 1,
                        first_vertex: buffer_offset,
                        first_instance: idx,
                    });
                    uniforms.push(InstanceUniform {
                        world_from_local: rec.world_from_local,
                        previous_world_from_local: rec.previous_world_from_local,
                    });
                    emitted.set(e, true);
                    proof {
                        let gn = g_pre + key_filter(sel.take(e as int + 1), k);
                        assert(draws@ =~= Seq::new(gn.len(), |x: int| draw_of(gn[x].0, x)));
                        assert(uniforms@ =~= Seq::new(gn.len(), |x: int| uniform_of(gn[x].0)));
                    }
                } else {
                    proof {
                        assert(key_filter(sel.take(e as int + 1), k) =~= key_filter(
                            sel.take(e as int),
                            k,
                        ));
                    }
                }
                e = e + 1;
            }
            proof {
                assert(sel.take(sel.len() as int) =~= sel);
            }
            let end = draws.len();
            batches.push(DrawBatch { key: k, start, end });
            proof {
                lemma_key_filter_len_at(sel, k, d as int);
                lemma_key_filter_keys(sel, k);
                assert(grouped_upto(sel, d as int + 1) == g_pre + key_filter(sel, k));
                // the new batch is non-empty and homogeneous
                assert(end - start == key_filter(sel, k).len());
                assert forall|b: int, x: int|
                    0 <= b < batches@.len() && (#[trigger] batches@[b]).start <= x
                        < batches@[b].end implies (#[trigger] grouped_upto(sel, d as int + 1)[x]).1
                    == batches@[b].key by {
                    if b < batches@.len() - 1 {
                        assert(grouped_upto(sel, d as int + 1)[x] == g_pre[x]);
                    } else {
                        assert(grouped_upto(sel, d as int + 1)[x] == key_filter(sel, k)[x
                            - g_pre.len()]);
                    }
                }
                // distinct keys: the new key was never batched before
                assert forall|b1: int, b2: int|
                    0 <= b1 < b2 < batches@.len() implies (#[trigger] batches@[b1]).key != (
                #[trigger] batches@[b2]).key by {
                    if b2 == batches@.len() - 1 {
                        if batches@[b1].key == k {
                            let d2 = choose|d2: int|
                                0 <= d2 < d && #[trigger] first_occurrence(sel, d2) && sel[d2].1
                                    == batches@[b1].key;
                        }
                    }
                }
                // the flags now record the new key as batched
                assert forall|x: int| 0 <= x < sel.len() implies #[trigger] emitted@[x]
                    == key_batched(sel, d as int + 1, x) by {
                    if emitted@[x] {
                        if emitted_pre[x] {
                            let d2 = choose|d2: int|
                                0 <= d2 < d && #[trigger] first_occurrence(sel, d2) && sel[d2].1
                                    == sel[x].1;
                            assert(key_batched(sel, d as int + 1, x));
                        } else {
                            assert(sel[x].1 == k);
                            assert(key_batched(sel, d as int + 1, x));
                        }
                    } else {
                        if key_batched(sel, d as int + 1, x) {
                            let d2 = choose|d2: int|
                                0 <= d2 < d + 1 && #[trigger] first_occurrence(sel, d2)
                                    && sel[d2].1 == sel[x].1;
                            if d2 < d as int {
                                assert(emitted_pre[x]);
                            } else {
                                assert(sel[x].1 == k);
                            }
                        }
                    }
                }
            }
        } else {
            proof {
                assert(key_batched(sel, d as int, d as int));
                let d2 = choose|d2: int|
                    0 <= d2 < d && #[trigger] first_occurrence(sel, d2) && sel[d2].1 == sel[d
                        as int].1;
                assert(!first_occurrence(sel, d as int));
                assert(grouped_upto(sel, d as int + 1) =~= g_pre);
                assert forall|x: int| 0 <= x < sel.len() implies #[trigger] emitted@[x]
                    == key_batched(sel, d as int + 1, x) by {
                    if !emitted@[x] && key_batched(sel, d as int + 1, x) {
                        let d3 = choose|d3: int|
                            0 <= d3 < d + 1 && #[trigger] first_occurrence(sel, d3) && sel[d3].1
                                == sel[x].1;
                        assert(d3 < d as int);
                    }
                }
            }
        }
        d = d + 1;
    }
    proof {
        assert forall|x: int| 0 <= x < emitted@.len() implies #[trigger] emitted@[x] by {
            lemma_first_occurrence_exists(sel, x);
            let d2 = choose|d2: int|
                0 <= d2 <= x && #[trigger] first_occurrence(sel, d2) && sel[d2].1 == sel[x].1;
            assert(key_batched(sel, sel.len() as int, x));
        }
        lemma_count_true_full(emitted@);
    }
    AssembledView { draws, uniforms, batches }
}

/// An all-false flag list has no set flags.
pub proof fn lemma_count_true_zero(s: Seq<bool>)
    requires
        forall|i: int| 0 <= i < s.len() ==> !(#[trigger] s[i]),
    ensures
        count_true(s) == 0,
    decreases s.len(),
{
    if s.len() > 0 {
        lemma_count_true_zero(s.drop_last());
    }
}

} // verus!
