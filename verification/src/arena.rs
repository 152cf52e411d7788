//! The point arena: a fixed-capacity store of point samples together with a
//! free-list allocator that hands out contiguous offset/length ranges and
//! reclaims them on free, coalescing adjacent gaps.
//!
//! The arena keeps a generous fixed capacity; exhaustion is a recoverable
//! error that callers handle per frame (skip the object, retry next frame),
//! never a reason to corrupt the bookkeeping. There is no growth-and-migrate
//! path: the capacity chosen at construction is final.
//!
//! Well-formedness ties the whole space together: the free gaps are sorted,
//! coalesced and pairwise disjoint, live allocations are pairwise disjoint
//! and disjoint from every gap, and the lengths of gaps plus live
//! allocations always sum to the capacity.

use vstd::prelude::*;
use vstd::pervasive::VecAdditionalExecFns;

use crate::sample::PointSample;

verus! {

/// A contiguous range of the arena, as an offset/length pair. The same shape
/// serves as an allocation handle (returned by `allocate`, surrendered to
/// `free`) and as a free gap in the arena's free list.
#[derive(Clone, Copy, Debug, PartialEq, Eq, Structural)]
pub struct Allocation {
    pub offset: u32,
    pub length: u32,
}

/// Arena failure modes: `Exhausted` when no gap can satisfy a request
/// (recoverable, the caller skips the object for the frame), and
/// `StaleAllocation` when a free is attempted on a range that is not
/// currently live (a programming error surfaced loudly).
#[derive(Clone, Copy, Debug, PartialEq, Eq, Structural)]
pub enum ArenaError {
    Exhausted,
    StaleAllocation,
}

/// Two ranges share no address. A zero-length range is disjoint from
/// everything.
pub open spec fn disjoint(a: Allocation, b: Allocation) -> bool {
    ||| a.length == 0
    ||| b.length == 0
    ||| a.offset + a.length <= b.offset
    ||| b.offset + b.length <= a.offset
}

/// The first range covers the second.
pub open spec fn covers(g: Allocation, a: Allocation) -> bool {
    g.offset <= a.offset && a.offset + a.length <= g.offset + g.length
}

/// Some range of the list covers the address.
pub open spec fn gaps_cover(s: Seq<Allocation>, addr: int) -> bool {
    exists|i: int| 0 <= i < s.len() && (#[trigger] s[i]).offset <= addr < s[i].offset + s[i].length
}

/// The total number of samples covered by a list of ranges.
pub open spec fn span_sum(s: Seq<Allocation>) -> int
    decreases s.len(),
{
    if s.len() == 0 {
        0
    } else {
        s[0].length + span_sum(s.drop_first())
    }
}

/// A well-formed free list: every gap is non-empty, lies inside the
/// capacity, and the list is sorted with strict separation between
/// consecutive gaps (touching gaps would have been coalesced).
pub open spec fn gaps_seq_wf(s: Seq<Allocation>, capacity: u32) -> bool {
    &&& forall|i: int|
        0 <= i < s.len() ==> (#[trigger] s[i]).length > 0 && s[i].offset + s[i].length <= capacity
    &&& forall|i: int|
        0 <= i && i + 1 < s.len() ==> (#[trigger] s[i]).offset + s[i].length < s[i + 1].offset
}

/// A well-formed live set: every allocation is non-empty, lies inside the
/// capacity, and no two overlap. A zero-length allocation denotes no
/// storage, so the arena never tracks one.
pub open spec fn live_seq_wf(s: Seq<Allocation>, capacity: u32) -> bool {
    &&& forall|i: int|
        0 <= i < s.len() ==> (#[trigger] s[i]).length > 0 && s[i].offset + s[i].length <= capacity
    &&& forall|i: int, j: int| 0 <= i < j < s.len() ==> disjoint(#[trigger] s[i], #[trigger] s[j])
}

/// No range of the first list overlaps a range of the second.
pub open spec fn all_disjoint(xs: Seq<Allocation>, ys: Seq<Allocation>) -> bool {
    forall|i: int, j: int|
        0 <= i < xs.len() && 0 <= j < ys.len() ==> disjoint(#[trigger] xs[i], #[trigger] ys[j])
}

pub proof fn lemma_span_sum_append(s: Seq<Allocation>, t: Seq<Allocation>)
    ensures
        span_sum(s + t) == span_sum(s) + span_sum(t),
    decreases s.len(),
{
    if s.len() == 0 {
        assert(s + t =~= t);
    } else {
        assert((s + t).drop_first() =~= s.drop_first() + t);
        lemma_span_sum_append(s.drop_first(), t);
    }
}

pub proof fn lemma_span_sum_one(x: Allocation)
    ensures
        span_sum(seq![x]) == x.length,
{
    assert(seq![x].drop_first() =~= Seq::<Allocation>::empty());
    assert(span_sum(Seq::<Allocation>::empty()) == 0);
    assert(span_sum(seq![x]) == x.length + span_sum(seq![x].drop_first()));
}

pub proof fn lemma_span_sum_push(s: Seq<Allocation>, x: Allocation)
    ensures
        span_sum(s.push(x)) == span_sum(s) + x.length,
{
    assert(s.push(x) =~= s + seq![x]);
    lemma_span_sum_append(s, seq![x]);
    lemma_span_sum_one(x);
}

pub proof fn lemma_span_sum_remove(s: Seq<Allocation>, i: int)
    requires
        0 <= i < s.len(),
    ensures
        span_sum(s.remove(i)) == span_sum(s) - s[i].length,
{
    assert(s =~= (s.subrange(0, i) + seq![s[i]]) + s.subrange(i + 1, s.len() as int));
    assert(s.remove(i) =~= s.subrange(0, i) + s.subrange(i + 1, s.len() as int));
    lemma_span_sum_append(s.subrange(0, i) + seq![s[i]], s.subrange(i + 1, s.len() as int));
    lemma_span_sum_append(s.subrange(0, i), seq![s[i]]);
    lemma_span_sum_append(s.subrange(0, i), s.subrange(i + 1, s.len() as int));
    lemma_span_sum_one(s[i]);
}

pub proof fn lemma_span_sum_update(s: Seq<Allocation>, i: int, x: Allocation)
    requires
        0 <= i < s.len(),
    ensures
        span_sum(s.update(i, x)) == span_sum(s) - s[i].length + x.length,
{
    assert(s =~= (s.subrange(0, i) + seq![s[i]]) + s.subrange(i + 1, s.len() as int));
    assert(s.update(i, x) =~= (s.subrange(0, i) + seq![x]) + s.subrange(i + 1, s.len() as int));
    lemma_span_sum_append(s.subrange(0, i) + seq![s[i]], s.subrange(i + 1, s.len() as int));
    lemma_span_sum_append(s.subrange(0, i), seq![s[i]]);
    lemma_span_sum_append(s.subrange(0, i) + seq![x], s.subrange(i + 1, s.len() as int));
    lemma_span_sum_append(s.subrange(0, i), seq![x]);
    lemma_span_sum_one(s[i]);
    lemma_span_sum_one(x);
}

pub proof fn lemma_span_sum_insert(s: Seq<Allocation>, i: int, x: Allocation)
    requires
        0 <= i <= s.len(),
    ensures
        span_sum(s.insert(i, x)) == span_sum(s) + x.length,
{
    assert(s =~= s.subrange(0, i) + s.subrange(i, s.len() as int));
    assert(s.insert(i, x) =~= (s.subrange(0, i) + seq![x]) + s.subrange(i, s.len() as int));
    lemma_span_sum_append(s.subrange(0, i), s.subrange(i, s.len() as int));
    lemma_span_sum_append(s.subrange(0, i) + seq![x], s.subrange(i, s.len() as int));
    lemma_span_sum_append(s.subrange(0, i), seq![x]);
    lemma_span_sum_one(x);
}

/// Gaps earlier in a well-formed free list end strictly before later ones
/// begin; in particular no two gaps overlap.
pub proof fn lemma_gap_separation(s: Seq<Allocation>, capacity: u32, i: int, j: int)
    requires
        gaps_seq_wf(s, capacity),
        0 <= i < j < s.len(),
    ensures
        s[i].offset + s[i].length < s[j].offset,
        disjoint(s[i], s[j]),
    decreases j - i,
{
    if j > i + 1 {
        lemma_gap_separation(s, capacity, i, j - 1);
    }
}

/// A sorted, coalesced free list spans at least its total length plus one
/// separating sample between consecutive gaps.
pub proof fn lemma_gap_span(s: Seq<Allocation>, capacity: u32)
    requires
        gaps_seq_wf(s, capacity),
        s.len() > 0,
    ensures
        span_sum(s) + s.len() - 1 <= s.last().offset + s.last().length - s[0].offset,
    decreases s.len(),
{
    if s.len() == 1 {
        assert(span_sum(s) == s[0].length + span_sum(s.drop_first()));
        assert(s.drop_first() =~= Seq::<Allocation>::empty());
    } else {
        let rest = s.drop_first();
        assert(gaps_seq_wf(rest, capacity)) by {
            assert forall|i: int|
                0 <= i && i + 1 < rest.len() implies (#[trigger] rest[i]).offset + rest[i].length
                < rest[i + 1].offset by {
                assert(s[i + 1].offset + s[i + 1].length < s[i + 2].offset);
            }
        }
        lemma_gap_span(rest, capacity);
        assert(rest.last() == s.last());
        assert(rest[0] == s[1]);
    }
}

/// An arena with no live allocations has a single free gap covering the
/// whole capacity: exhaustion cannot happen while nothing is allocated.
pub proof fn lemma_idle_arena_single_gap(arena: PointArena)
    requires
        arena.wf(),
        arena.live@.len() == 0,
        arena.capacity > 0,
    ensures
        arena.gaps@ =~= seq![(Allocation { offset: 0, length: arena.capacity })],
{
    assert(span_sum(arena.live@) == 0);
    assert(span_sum(arena.gaps@) == arena.capacity);
    assert(arena.gaps@.len() > 0) by {
        if arena.gaps@.len() == 0 {
            assert(span_sum(arena.gaps@) == 0);
        }
    }
    if arena.gaps@.len() > 1 {
        lemma_gap_span(arena.gaps@, arena.capacity);
        assert(arena.gaps@.last().offset + arena.gaps@.last().length <= arena.capacity);
        assert(span_sum(arena.gaps@) + arena.gaps@.len() - 1 <= arena.capacity);
        assert(false);
    }
    assert(span_sum(arena.gaps@) == arena.gaps@[0].length + span_sum(
        arena.gaps@.drop_first(),
    ));
    assert(arena.gaps@.drop_first() =~= Seq::<Allocation>::empty());
    assert(arena.gaps@[0].length == arena.capacity);
    assert(arena.gaps@[0].offset == 0);
}

/// Shared contract of the four coalescing branches of `reinsert_gap`:
/// position facts derived from sortedness and disjointness, stated over the
/// free list before the branch runs.
pub open spec fn reinsert_pre(
    gaps: Seq<Allocation>,
    live: Seq<Allocation>,
    a: Allocation,
    capacity: u32,
    pos: int,
) -> bool {
    &&& gaps_seq_wf(gaps, capacity)
    &&& all_disjoint(gaps, live)
    &&& a.length > 0
    &&& a.offset + a.length <= capacity
    &&& forall|j: int| 0 <= j < live.len() ==> disjoint(a, #[trigger] live[j])
    &&& 0 <= pos <= gaps.len()
    &&& forall|j: int|
        0 <= j < pos ==> (#[trigger] gaps[j]).offset + gaps[j].length <= a.offset
    &&& forall|j: int| pos <= j < gaps.len() ==> a.offset + a.length <= (#[trigger] gaps[j]).offset
}

/// Coalesce `a` with both the gap ending at its start and the gap starting
/// at its end.
#[verifier::spinoff_prover]
#[verifier::rlimit(100)]
fn merge_both(gaps: &mut Vec<Allocation>, live: &Vec<Allocation>, a: Allocation, capacity: u32, pos: usize) -> (w: usize)
    requires
        reinsert_pre(old(gaps)@, live@, a, capacity, pos as int),
        1 <= pos < old(gaps)@.len(),
        old(gaps)@[pos - 1].offset + old(gaps)@[pos - 1].length == a.offset,
        a.offset + a.length == old(gaps)@[pos as int].offset,
    ensures
        gaps_seq_wf(final(gaps)@, capacity),
        all_disjoint(final(gaps)@, live@),
        span_sum(final(gaps)@) == span_sum(old(gaps)@) + a.length,
        w < final(gaps)@.len() && covers(final(gaps)@[w as int], a),
        forall|addr: int|
            gaps_cover(final(gaps)@, addr) <==> (gaps_cover(old(gaps)@, addr) || (a.offset <= addr
                < a.offset + a.length)),
{
    let ghost gaps0 = gaps@;
    let left = gaps[pos - 1];
    let right = gaps[pos];
    let merged = Allocation {
        offset: left.offset,
        length: right.offset + right.length - left.offset,
    };
    proof {
        lemma_span_sum_update(gaps0, pos - 1, merged);
        lemma_span_sum_remove(gaps0.update(pos - 1, merged), pos as int);
    }
    gaps.set(pos - 1, merged);
    gaps.remove(pos);
    proof {
        assert(gaps@ =~= gaps0.update(pos - 1, merged).remove(pos as int));
        assert forall|k: int| 0 <= k < gaps@.len() implies #[trigger] gaps@[k] == (if k < pos - 1 {
            gaps0[k]
        } else if k == pos - 1 {
            merged
        } else {
            gaps0[k + 1]
        }) by {}
        assert(gaps@[pos - 1] == merged);
        assert(covers(merged, a));
        assert forall|k: int, j: int|
            0 <= k < gaps@.len() && 0 <= j < live@.len() implies disjoint(
            #[trigger] gaps@[k],
            #[trigger] live@[j],
        ) by {
            if k == pos - 1 {
                assert(disjoint(gaps0[pos - 1], live@[j]));
                assert(disjoint(gaps0[pos as int], live@[j]));
                assert(disjoint(a, live@[j]));
            }
        }
        assert forall|addr: int|
            gaps_cover(gaps@, addr) <==> (gaps_cover(gaps0, addr) || (a.offset <= addr < a.offset
                + a.length)) by {
            if gaps_cover(gaps@, addr) {
                let k = choose|k: int|
                    0 <= k < gaps@.len() && (#[trigger] gaps@[k]).offset <= addr < gaps@[k].offset
                        + gaps@[k].length;
                if k < pos - 1 {
                    assert(gaps0[k].offset <= addr < gaps0[k].offset + gaps0[k].length);
                } else if k == pos - 1 {
                    if addr < gaps0[pos - 1].offset + gaps0[pos - 1].length {
                        assert(gaps0[pos - 1].offset <= addr < gaps0[pos - 1].offset + gaps0[pos
                            - 1].length);
                    } else if addr >= gaps0[pos as int].offset {
                        assert(gaps0[pos as int].offset <= addr < gaps0[pos as int].offset
                            + gaps0[pos as int].length);
                    }
                } else {
                    assert(gaps0[k + 1].offset <= addr < gaps0[k + 1].offset + gaps0[k
                        + 1].length);
                }
            }
            if gaps_cover(gaps0, addr) {
                let k2 = choose|k2: int|
                    0 <= k2 < gaps0.len() && (#[trigger] gaps0[k2]).offset <= addr
                        < gaps0[k2].offset + gaps0[k2].length;
                if k2 < pos - 1 {
                    assert(gaps@[k2].offset <= addr < gaps@[k2].offset + gaps@[k2].length);
                } else if k2 == pos - 1 || k2 == pos as int {
                    assert(gaps@[pos - 1].offset <= addr < gaps@[pos - 1].offset + gaps@[pos
                        - 1].length);
                } else {
                    assert(gaps@[k2 - 1].offset <= addr < gaps@[k2 - 1].offset + gaps@[k2
                        - 1].length);
                }
            }
            if a.offset <= addr < a.offset + a.length {
                assert(gaps@[pos - 1].offset <= addr < gaps@[pos - 1].offset + gaps@[pos
                    - 1].length);
            }
        }
    }
    pos - 1
}

/// Coalesce `a` with the gap that ends exactly where it starts.
#[verifier::spinoff_prover]
#[verifier::rlimit(100)]
fn merge_left(gaps: &mut Vec<Allocation>, live: &Vec<Allocation>, a: Allocation, capacity: u32, pos: usize) -> (w: usize)
    requires
        reinsert_pre(old(gaps)@, live@, a, capacity, pos as int),
        1 <= pos,
        old(gaps)@[pos - 1].offset + old(gaps)@[pos - 1].length == a.offset,
        pos < old(gaps)@.len() ==> a.offset + a.length < old(gaps)@[pos as int].offset,
    ensures
        gaps_seq_wf(final(gaps)@, capacity),
        all_disjoint(final(gaps)@, live@),
        span_sum(final(gaps)@) == span_sum(old(gaps)@) + a.length,
        w < final(gaps)@.len() && covers(final(gaps)@[w as int], a),
        forall|addr: int|
            gaps_cover(final(gaps)@, addr) <==> (gaps_cover(old(gaps)@, addr) || (a.offset <= addr
                < a.offset + a.length)),
{
    let ghost gaps0 = gaps@;
    let left = gaps[pos - 1];
    let merged = Allocation { offset: left.offset, length: a.offset + a.length - left.offset };
    proof {
        lemma_span_sum_update(gaps0, pos - 1, merged);
    }
    gaps.set(pos - 1, merged);
    proof {
        assert(gaps@[pos - 1] == merged);
        assert(covers(merged, a));
        assert forall|k: int, j: int|
            0 <= k < gaps@.len() && 0 <= j < live@.len() implies disjoint(
            #[trigger] gaps@[k],
            #[trigger] live@[j],
        ) by {
            if k == pos - 1 {
                assert(disjoint(gaps0[pos - 1], live@[j]));
                assert(disjoint(a, live@[j]));
            }
        }
        assert forall|addr: int|
            gaps_cover(gaps@, addr) <==> (gaps_cover(gaps0, addr) || (a.offset <= addr < a.offset
                + a.length)) by {
            if gaps_cover(gaps@, addr) {
                let k = choose|k: int|
                    0 <= k < gaps@.len() && (#[trigger] gaps@[k]).offset <= addr < gaps@[k].offset
                        + gaps@[k].length;
                if k == pos - 1 {
                    if addr < gaps0[pos - 1].offset + gaps0[pos - 1].length {
                        assert(gaps0[pos - 1].offset <= addr < gaps0[pos - 1].offset + gaps0[pos
                            - 1].length);
                    }
                } else {
                    assert(gaps0[k].offset <= addr < gaps0[k].offset + gaps0[k].length);
                }
            }
            if gaps_cover(gaps0, addr) {
                let k2 = choose|k2: int|
                    0 <= k2 < gaps0.len() && (#[trigger] gaps0[k2]).offset <= addr
                        < gaps0[k2].offset + gaps0[k2].length;
                if k2 == pos - 1 {
                    assert(gaps@[pos - 1].offset <= addr < gaps@[pos - 1].offset + gaps@[pos
                        - 1].length);
                } else {
                    assert(gaps@[k2].offset <= addr < gaps@[k2].offset + gaps@[k2].length);
                }
            }
            if a.offset <= addr < a.offset + a.length {
                assert(gaps@[pos - 1].offset <= addr < gaps@[pos - 1].offset + gaps@[pos
                    - 1].length);
            }
        }
    }
    pos - 1
}

/// Coalesce `a` with the gap that starts exactly where it ends.
#[verifier::spinoff_prover]
#[verifier::rlimit(100)]
fn merge_right(gaps: &mut Vec<Allocation>, live: &Vec<Allocation>, a: Allocation, capacity: u32, pos: usize) -> (w: usize)
    requires
        reinsert_pre(old(gaps)@, live@, a, capacity, pos as int),
        pos < old(gaps)@.len(),
        a.offset + a.length == old(gaps)@[pos as int].offset,
        1 <= pos ==> old(gaps)@[pos - 1].offset + old(gaps)@[pos - 1].length < a.offset,
    ensures
        gaps_seq_wf(final(gaps)@, capacity),
        all_disjoint(final(gaps)@, live@),
        span_sum(final(gaps)@) == span_sum(old(gaps)@) + a.length,
        w < final(gaps)@.len() && covers(final(gaps)@[w as int], a),
        forall|addr: int|
            gaps_cover(final(gaps)@, addr) <==> (gaps_cover(old(gaps)@, addr) || (a.offset <= addr
                < a.offset + a.length)),
{
    let ghost gaps0 = gaps@;
    let right = gaps[pos];
    let merged = Allocation { offset: a.offset, length: right.offset + right.length - a.offset };
    proof {
        lemma_span_sum_update(gaps0, pos as int, merged);
    }
    gaps.set(pos, merged);
    proof {
        assert(gaps@[pos as int] == merged);
        assert(covers(merged, a));
        assert forall|k: int, j: int|
            0 <= k < gaps@.len() && 0 <= j < live@.len() implies disjoint(
            #[trigger] gaps@[k],
            #[trigger] live@[j],
        ) by {
            if k == pos as int {
                assert(disjoint(gaps0[pos as int], live@[j]));
                assert(disjoint(a, live@[j]));
            }
        }
        assert forall|addr: int|
            gaps_cover(gaps@, addr) <==> (gaps_cover(gaps0, addr) || (a.offset <= addr < a.offset
                + a.length)) by {
            if gaps_cover(gaps@, addr) {
                let k = choose|k: int|
                    0 <= k < gaps@.len() && (#[trigger] gaps@[k]).offset <= addr < gaps@[k].offset
                        + gaps@[k].length;
                if k == pos as int {
                    if addr >= gaps0[pos as int].offset {
                        assert(gaps0[pos as int].offset <= addr < gaps0[pos as int].offset
                            + gaps0[pos as int].length);
                    }
                } else {
                    assert(gaps0[k].offset <= addr < gaps0[k].offset + gaps0[k].length);
                }
            }
            if gaps_cover(gaps0, addr) {
                let k2 = choose|k2: int|
                    0 <= k2 < gaps0.len() && (#[trigger] gaps0[k2]).offset <= addr
                        < gaps0[k2].offset + gaps0[k2].length;
                if k2 == pos as int {
                    assert(gaps@[pos as int].offset <= addr < gaps@[pos as int].offset + gaps@[pos
                        as int].length);
                } else {
                    assert(gaps@[k2].offset <= addr < gaps@[k2].offset + gaps@[k2].length);
                }
            }
            if a.offset <= addr < a.offset + a.length {
                assert(gaps@[pos as int].offset <= addr < gaps@[pos as int].offset + gaps@[pos
                    as int].length);
            }
        }
    }
    pos
}

/// Inserting a range into a list adds exactly its addresses to the
/// coverage.
proof fn lemma_cover_insert(s: Seq<Allocation>, pos: int, a: Allocation)
    requires
        0 <= pos <= s.len(),
    ensures
        forall|addr: int|
            gaps_cover(s.insert(pos, a), addr) <==> (gaps_cover(s, addr) || (a.offset <= addr
                < a.offset + a.length)),
{
    let t = s.insert(pos, a);
    assert forall|addr: int|
        gaps_cover(t, addr) <==> (gaps_cover(s, addr) || (a.offset <= addr < a.offset
            + a.length)) by {
        if gaps_cover(t, addr) {
            let k = choose|k: int|
                0 <= k < t.len() && (#[trigger] t[k]).offset <= addr < t[k].offset + t[k].length;
            if k < pos {
                assert(s[k].offset <= addr < s[k].offset + s[k].length);
            } else if k > pos {
                assert(s[k - 1].offset <= addr < s[k - 1].offset + s[k - 1].length);
            }
        }
        if gaps_cover(s, addr) {
            let k2 = choose|k2: int|
                0 <= k2 < s.len() && (#[trigger] s[k2]).offset <= addr < s[k2].offset
                    + s[k2].length;
            if k2 < pos {
                assert(t[k2].offset <= addr < t[k2].offset + t[k2].length);
            } else {
                assert(t[k2 + 1].offset <= addr < t[k2 + 1].offset + t[k2 + 1].length);
            }
        }
        if a.offset <= addr < a.offset + a.length {
            assert(t[pos].offset <= addr < t[pos].offset + t[pos].length);
        }
    }
}

/// Insert `a` as a gap of its own: neither neighbour touches it.
#[verifier::spinoff_prover]
#[verifier::rlimit(100)]
fn insert_plain(gaps: &mut Vec<Allocation>, live: &Vec<Allocation>, a: Allocation, capacity: u32, pos: usize) -> (w: usize)
    requires
        reinsert_pre(old(gaps)@, live@, a, capacity, pos as int),
        1 <= pos ==> old(gaps)@[pos - 1].offset + old(gaps)@[pos - 1].length < a.offset,
        pos < old(gaps)@.len() ==> a.offset + a.length < old(gaps)@[pos as int].offset,
    ensures
        gaps_seq_wf(final(gaps)@, capacity),
        all_disjoint(final(gaps)@, live@),
        span_sum(final(gaps)@) == span_sum(old(gaps)@) + a.length,
        w < final(gaps)@.len() && covers(final(gaps)@[w as int], a),
        forall|addr: int|
            gaps_cover(final(gaps)@, addr) <==> (gaps_cover(old(gaps)@, addr) || (a.offset <= addr
                < a.offset + a.length)),
{
    let ghost gaps0 = gaps@;
    proof {
        lemma_span_sum_insert(gaps0, pos as int, a);
    }
    gaps.insert(pos, a);
    proof {
        assert(gaps@[pos as int] == a);
        assert(covers(a, a));
        assert forall|k: int, j: int|
            0 <= k < gaps@.len() && 0 <= j < live@.len() implies disjoint(
            #[trigger] gaps@[k],
            #[trigger] live@[j],
        ) by {
            if k < pos as int {
                assert(disjoint(gaps0[k], live@[j]));
            } else if k == pos as int {
                assert(disjoint(a, live@[j]));
            } else {
                assert(disjoint(gaps0[k - 1], live@[j]));
            }
        }
        lemma_cover_insert(gaps0, pos as int, a);
    }
    pos
}

/// Return a range to a free list it is disjoint from, coalescing with the
/// gap that ends where the range begins and the gap that begins where it
/// ends, so the result is again sorted, coalesced, and disjoint from the
/// given live set.
#[verifier::spinoff_prover]
fn reinsert_gap(gaps: &mut Vec<Allocation>, live: &Vec<Allocation>, a: Allocation, capacity: u32) -> (w: usize)
    requires
        gaps_seq_wf(old(gaps)@, capacity),
        all_disjoint(old(gaps)@, live@),
        a.length > 0,
        a.offset + a.length <= capacity,
        forall|j: int| 0 <= j < old(gaps)@.len() ==> disjoint(#[trigger] old(gaps)@[j], a),
        forall|j: int| 0 <= j < live@.len() ==> disjoint(a, #[trigger] live@[j]),
    ensures
        gaps_seq_wf(final(gaps)@, capacity),
        all_disjoint(final(gaps)@, live@),
        span_sum(final(gaps)@) == span_sum(old(gaps)@) + a.length,
        w < final(gaps)@.len() && covers(final(gaps)@[w as int], a),
        forall|addr: int|
            gaps_cover(final(gaps)@, addr) <==> (gaps_cover(old(gaps)@, addr) || (a.offset <= addr
                < a.offset + a.length)),
{
    let ghost gaps0 = gaps@;
    let mut pos: usize = 0;
    while pos < gaps.len() && gaps[pos].offset < a.offset
        invariant
            pos <= gaps@.len(),
            gaps@ == gaps0,
            forall|j: int| 0 <= j < pos ==> (#[trigger] gaps@[j]).offset < a.offset,
        decreases gaps@.len() - pos,
    {
        pos = pos + 1;
    }
    proof {
        assert forall|j: int| 0 <= j < pos implies (#[trigger] gaps@[j]).offset + gaps@[j].length
            <= a.offset by {
            assert(disjoint(gaps@[j], a));
        }
        assert forall|j: int| pos <= j < gaps@.len() implies a.offset + a.length <= (
        #[trigger] gaps@[j]).offset by {
            if j > pos as int {
                lemma_gap_separation(gaps@, capacity, pos as int, j);
            }
            assert(disjoint(gaps@[j], a));
        }
    }
    let has_left = pos > 0 && gaps[pos - 1].offset + gaps[pos - 1].length == a.offset;
    let has_right = pos < gaps.len() && a.offset + a.length == gaps[pos].offset;
    if has_left && has_right {
        merge_both(gaps, live, a, capacity, pos)
    } else if has_left {
        merge_left(gaps, live, a, capacity, pos)
    } else if has_right {
        merge_right(gaps, live, a, capacity, pos)
    } else {
        insert_plain(gaps, live, a, capacity, pos)
    }
}

/// The GPU-resident point storage with its allocator. `gaps` is the free
/// list, sorted by offset and coalesced; `live` holds every allocation
/// handed out and not yet freed; `store` models the buffer contents.
pub struct PointArena {
    pub capacity: u32,
    pub gaps: Vec<Allocation>,
    pub live: Vec<Allocation>,
    pub store: Vec<PointSample>,
}

impl PointArena {
    /// The arena invariant: the store matches the capacity, gaps and live
    /// allocations are well formed and mutually disjoint, and allocated
    /// plus free space partitions the whole capacity.
    pub open spec fn wf(self) -> bool {
        &&& self.store@.len() == self.capacity
        &&& gaps_seq_wf(self.gaps@, self.capacity)
        &&& live_seq_wf(self.live@, self.capacity)
        &&& all_disjoint(self.gaps@, self.live@)
        &&& span_sum(self.gaps@) + span_sum(self.live@) == self.capacity
    }

    /// An arena of the given capacity with a single gap covering the whole
    /// space, no live allocations, and a zeroed store.
    pub fn with_capacity(capacity: u32) -> (arena: PointArena)
        ensures
            arena.wf(),
            arena.capacity == capacity,
            arena.live@ =~= Seq::<Allocation>::empty(),
            arena.store@.len() == capacity,
            arena.gaps@ == (if capacity == 0 {
                Seq::<Allocation>::empty()
            } else {
                seq![(Allocation { offset: 0, length: capacity })]
            }),
    {
        let mut store: Vec<PointSample> = Vec::new();
        let mut k: u32 = 0;
        while k < capacity
            invariant
                k <= capacity,
                store@.len() == k,
            decreases capacity - k,
        {
            store.push(PointSample { x: 0, y: 0, z: 0, w: 0 });
            k = k + 1;
        }
        let mut gaps: Vec<Allocation> = Vec::new();
        if capacity > 0 {
            gaps.push(Allocation { offset: 0, length: capacity });
        }
        let arena = PointArena { capacity, gaps, live: Vec::new(), store };
        proof {
            if capacity > 0 {
                lemma_span_sum_one(Allocation { offset: 0, length: capacity });
                assert(arena.gaps@ =~= seq![Allocation { offset: 0, length: capacity }]);
            }
        }
        arena
    }

    /// Index of the first gap that can hold `n` samples, if any.
    fn find_gap(&self, n: u32) -> (r: Option<usize>)
        requires
            n > 0,
        ensures
            match r {
                Some(i) => i < self.gaps@.len() && self.gaps@[i as int].length >= n && forall|
                    j: int,
                |
                    0 <= j < i ==> (#[trigger] self.gaps@[j]).length < n,
                None => forall|j: int|
                    0 <= j < self.gaps@.len() ==> (#[trigger] self.gaps@[j]).length < n,
            },
    {
        let mut i: usize = 0;
        while i < self.gaps.len()
            invariant
                i <= self.gaps@.len(),
                forall|j: int| 0 <= j < i ==> (#[trigger] self.gaps@[j]).length < n,
            decreases self.gaps@.len() - i,
        {
            if self.gaps[i].length >= n {
                return Some(i);
            }
            i = i + 1;
        }
        None
    }

    /// Carve a range of `n` samples out of the first gap that fits, in
    /// first-fit order: the prefix of the gap becomes the allocation and the
    /// remainder, if any, stays in the free list. Fails with `Exhausted`
    /// exactly when `n > 0` and no gap is large enough, leaving the arena
    /// untouched. A request for zero samples always succeeds with a
    /// zero-length allocation.
    #[verifier::spinoff_prover]
    #[verifier::rlimit(100)]
    pub fn allocate(&mut self, n: u32) -> (r: Result<Allocation, ArenaError>)
        requires
            old(self).wf(),
        ensures
            final(self).wf(),
            match r {
                Ok(a) => allocate_ok(*old(self), *final(self), n, a),
                Err(e) => e == ArenaError::Exhausted && allocate_exhausted(
                    *old(self),
                    *final(self),
                    n,
                ),
            },
    {
        if n == 0 {
            return Ok(Allocation { offset: 0, length: 0 });
        }
        match self.find_gap(n) {
            None => Err(ArenaError::Exhausted),
            Some(i) => {
                let g = self.gaps[i];
                let a = Allocation { offset: g.offset, length: n };
                proof {
                    lemma_span_sum_push(self.live@, a);
                    assert forall|j: int| 0 <= j < self.live@.len() implies disjoint(
                        a,
                        #[trigger] self.live@[j],
                    ) by {
                        assert(disjoint(self.gaps@[i as int], self.live@[j]));
                    }
                    assert forall|k: int|
                        0 <= k < self.gaps@.len() && k != i implies disjoint(
                        #[trigger] self.gaps@[k],
                        a,
                    ) by {
                        if k < i {
                            lemma_gap_separation(self.gaps@, self.capacity, k, i as int);
                        } else {
                            lemma_gap_separation(self.gaps@, self.capacity, i as int, k);
                        }
                    }
                }
                if g.length == n {
                    proof {
                        lemma_span_sum_remove(self.gaps@, i as int);
                    }
                    self.gaps.remove(i);
                    proof {
                        assert forall|k: int|
                            0 <= k && k + 1 < self.gaps@.len() implies (
                        #[trigger] self.gaps@[k]).offset + self.gaps@[k].length < self.gaps@[k
                            + 1].offset by {
                            if k + 1 == i {
                                lemma_gap_separation(old(self).gaps@, self.capacity, k, k + 2);
                            }
                        }
                    }
                } else {
                    let shrunk = Allocation { offset: g.offset + n, length: g.length - n };
                    proof {
                        lemma_span_sum_update(self.gaps@, i as int, shrunk);
                    }
                    self.gaps.set(i, shrunk);
                }
                self.live.push(a);
                proof {
                    assert(first_fit_carve(old(self).gaps@, self.gaps@, n, a)) by {
                        assert(0 <= i < old(self).gaps@.len() && (#[trigger] old(
                            self,
                        ).gaps@[i as int]).length >= n && (forall|j: int|
                            0 <= j < i ==> (#[trigger] old(self).gaps@[j]).length < n)
                            && a.offset == old(self).gaps@[i as int].offset);
                    }
                }
                Ok(a)
            },
        }
    }

    /// Index of the first live allocation equal to `a`, if any.
    fn find_live(&self, a: Allocation) -> (r: Option<usize>)
        ensures
            match r {
                Some(i) => i < self.live@.len() && self.live@[i as int] == a,
                None => !self.live@.contains(a),
            },
    {
        let mut i: usize = 0;
        while i < self.live.len()
            invariant
                i <= self.live@.len(),
                forall|j: int| 0 <= j < i ==> self.live@[j] != a,
            decreases self.live@.len() - i,
        {
            if self.live[i] == a {
                return Some(i);
            }
            i = i + 1;
        }
        None
    }

    /// Return an allocation's range to the free list, coalescing it with
    /// any gaps adjacent to it so fragmentation stays bounded. The caller
    /// must surrender a currently live allocation; `checked_free` is the
    /// variant that detects a stale or double free at run time instead.
    #[verifier::spinoff_prover]
    #[verifier::rlimit(100)]
    pub fn free(&mut self, a: Allocation)
        requires
            old(self).wf(),
            a.length > 0 ==> old(self).live@.contains(a),
        ensures
            final(self).wf(),
            free_effect(*old(self), *final(self), a),
    {
        if a.length == 0 {
            return ;
        }
        let idx = self.find_live(a).unwrap();
        let ghost live0 = self.live@;
        proof {
            lemma_span_sum_remove(live0, idx as int);
            vstd::seq_lib::to_multiset_remove(live0, idx as int);
            assert(a.offset + a.length <= self.capacity);
        }
        self.live.remove(idx);
        proof {
            assert forall|j: int| 0 <= j < self.live@.len() implies disjoint(
                a,
                #[trigger] self.live@[j],
            ) by {
                if j < idx as int {
                    assert(disjoint(live0[j], live0[idx as int]));
                } else {
                    assert(disjoint(live0[idx as int], live0[j + 1]));
                }
            }
            assert forall|k: int, j: int|
                0 <= k < self.gaps@.len() && 0 <= j < self.live@.len() implies disjoint(
                #[trigger] self.gaps@[k],
                #[trigger] self.live@[j],
            ) by {
                if j < idx as int {
                    assert(disjoint(self.gaps@[k], live0[j]));
                } else {
                    assert(disjoint(self.gaps@[k], live0[j + 1]));
                }
            }
            assert forall|k: int| 0 <= k < self.gaps@.len() implies disjoint(
                #[trigger] self.gaps@[k],
                a,
            ) by {
                assert(disjoint(self.gaps@[k], live0[idx as int]));
            }
        }
        let w = reinsert_gap(&mut self.gaps, &self.live, a, self.capacity);
        proof {
            assert(self.live@.to_multiset() == old(self).live@.to_multiset().remove(a));
            assert(covers(self.gaps@[w as int], a));
            assert(exists|i: int| 0 <= i < self.gaps@.len() && covers(#[trigger] self.gaps@[i], a));
            assert(free_effect(*old(self), *self, a));
        }
    }

    /// Like `free`, but detects at run time an allocation that is not
    /// currently live (freed twice, or never handed out): the arena is left
    /// untouched and `StaleAllocation` reports the programming error.
    /// Surrendering a zero-length allocation is a vacuous success: it
    /// denotes no storage and was never tracked.
    pub fn checked_free(&mut self, a: Allocation) -> (r: Result<(), ArenaError>)
        requires
            old(self).wf(),
        ensures
            final(self).wf(),
            a.length == 0 || old(self).live@.contains(a) ==> r == Ok::<(), ArenaError>(())
                && free_effect(*old(self), *final(self), a),
            a.length > 0 && !old(self).live@.contains(a) ==> r == Err::<(), ArenaError>(
                ArenaError::StaleAllocation,
            ) && *final(self) == *old(self),
    {
        if a.length == 0 {
            return Ok(());
        }
        match self.find_live(a) {
            Some(i) => {
                proof {
                    assert(self.live@[i as int] == a);
                }
                self.free(a);
                Ok(())
            },
            None => Err(ArenaError::StaleAllocation),
        }
    }
}

/// The stored samples after a write: the allocation's range holds the new
/// samples and every other address is untouched.
pub open spec fn write_effect(
    pre: Seq<PointSample>,
    post: Seq<PointSample>,
    a: Allocation,
    pts: Seq<PointSample>,
) -> bool {
    &&& post.len() == pre.len()
    &&& forall|k: int|
        0 <= k < pre.len() ==> #[trigger] post[k] == (if a.offset <= k < a.offset + a.length {
            pts[k - a.offset]
        } else {
            pre[k]
        })
}

impl PointArena {
    /// The samples currently stored in a range, as the arena's model of the
    /// GPU buffer shows them.
    pub open spec fn stored(self, a: Allocation) -> Seq<PointSample> {
        self.store@.subrange(a.offset as int, a.offset + a.length)
    }

    /// Copy `pts` into the arena at the allocation's offset, one bulk
    /// transfer into a range the caller owns; no other address changes.
    pub fn write_points(&mut self, a: Allocation, pts: &Vec<PointSample>)
        requires
            old(self).wf(),
            old(self).live@.contains(a),
            pts@.len() == a.length,
        ensures
            final(self).wf(),
            final(self).capacity == old(self).capacity,
            final(self).gaps@ == old(self).gaps@,
            final(self).live@ == old(self).live@,
            write_effect(old(self).store@, final(self).store@, a, pts@),
    {
        let ghost store0 = self.store@;
        let ghost idx = choose|i: int| 0 <= i < self.live@.len() && self.live@[i] == a;
        proof {
            assert(self.live@[idx].offset + self.live@[idx].length <= self.capacity);
        }
        let mut k: usize = 0;
        while k < pts.len()
            invariant
                k <= pts@.len(),
                pts@.len() == a.length,
                a.offset + a.length <= self.capacity,
                self.capacity == old(self).capacity,
                self.gaps@ == old(self).gaps@,
                self.live@ == old(self).live@,
                self.store@.len() == store0.len(),
                store0.len() == self.capacity,
                forall|m: int|
                    0 <= m < store0.len() ==> #[trigger] self.store@[m] == (if a.offset <= m
                        < a.offset + k {
                        pts@[m - a.offset]
                    } else {
                        store0[m]
                    }),
            decreases pts@.len() - k,
        {
            self.store.set(a.offset as usize + k, pts[k]);
            k = k + 1;
        }
    }

    /// Read the allocation's range back out of the arena, sample for
    /// sample.
    pub fn read_points(&self, a: Allocation) -> (r: Vec<PointSample>)
        requires
            self.wf(),
            a.offset + a.length <= self.capacity,
        ensures
            r@ == self.stored(a),
    {
        let mut r: Vec<PointSample> = Vec::new();
        let mut k: usize = 0;
        while k < a.length as usize
            invariant
                k <= a.length,
                a.offset + a.length <= self.capacity,
                self.store@.len() == self.capacity,
                r@ =~= self.store@.subrange(a.offset as int, a.offset + k),
            decreases a.length - k,
        {
            r.push(self.store[a.offset as usize + k]);
            proof {
                assert(r@ =~= self.store@.subrange(a.offset as int, a.offset + k + 1));
            }
            k = k + 1;
        }
        proof {
            assert(r@ =~= self.stored(a));
        }
        r
    }
}

/// Free gaps never overlap, and allocated plus free space always sums to
/// the arena's capacity. This holds at every observation point, because
/// every arena operation preserves `wf`.
pub proof fn lemma_arena_space_partition(arena: PointArena)
    requires
        arena.wf(),
    ensures
        forall|i: int, j: int|
            0 <= i < j < arena.gaps@.len() ==> disjoint(
                #[trigger] arena.gaps@[i],
                #[trigger] arena.gaps@[j],
            ),
        span_sum(arena.gaps@) + span_sum(arena.live@) == arena.capacity,
{
    assert forall|i: int, j: int| 0 <= i < j < arena.gaps@.len() implies disjoint(
        #[trigger] arena.gaps@[i],
        #[trigger] arena.gaps@[j],
    ) by {
        lemma_gap_separation(arena.gaps@, arena.capacity, i, j);
    }
}

/// Freeing an allocation and immediately re-requesting the same size
/// succeeds, and the returned region overlaps no allocation that stayed
/// live. `s0` is the arena before the free, `s1` after it, `s2` after the
/// re-request whose outcome is `r`.
pub proof fn lemma_free_then_reallocate(
    s0: PointArena,
    s1: PointArena,
    s2: PointArena,
    x: Allocation,
    r: Result<Allocation, ArenaError>,
)
    requires
        s0.wf(),
        s1.wf(),
        s0.live@.contains(x),
        free_effect(s0, s1, x),
        match r {
            Ok(a) => allocate_ok(s1, s2, x.length, a),
            Err(e) => e == ArenaError::Exhausted && allocate_exhausted(s1, s2, x.length),
        },
    ensures
        match r {
            Ok(a) => forall|i: int| 0 <= i < s1.live@.len() ==> disjoint(a, #[trigger] s1.live@[i]),
            Err(_) => false,
        },
{
    if r is Err {
        let i = choose|i: int|
            0 <= i < s1.gaps@.len() && covers(#[trigger] s1.gaps@[i], x);
        assert(s1.gaps@[i].length >= x.length);
    }
}

/// Round trip: the samples written into an allocation are exactly the
/// samples read back from the same offset and length.
pub proof fn lemma_write_read_round_trip(
    pre: Seq<PointSample>,
    post: Seq<PointSample>,
    a: Allocation,
    pts: Seq<PointSample>,
)
    requires
        write_effect(pre, post, a, pts),
        pts.len() == a.length,
        a.offset + a.length <= pre.len(),
    ensures
        post.subrange(a.offset as int, a.offset + a.length) == pts,
{
    assert(post.subrange(a.offset as int, a.offset + a.length) =~= pts);
}

/// Transition claimed by a successful `allocate`: the result has the
/// requested length, lies inside the capacity, overlaps no allocation that
/// was live before the call, and is appended to the live set; the stored
/// samples are untouched.
pub open spec fn allocate_ok(pre: PointArena, post: PointArena, n: u32, a: Allocation) -> bool {
    &&& a.length == n
    &&& a.offset + a.length <= pre.capacity
    &&& forall|i: int| 0 <= i < pre.live@.len() ==> disjoint(a, #[trigger] pre.live@[i])
    &&& post.live@ == (if n == 0 {
        pre.live@
    } else {
        pre.live@.push(a)
    })
    &&& n == 0 ==> a.offset == 0 && post.gaps@ == pre.gaps@
    &&& n > 0 ==> first_fit_carve(pre.gaps@, post.gaps@, n, a)
    &&& post.capacity == pre.capacity
    &&& post.store@ == pre.store@
}

/// Every free gap is smaller than `n`: no request for `n` samples can be
/// satisfied.
pub open spec fn all_gaps_below(s: Seq<Allocation>, n: int) -> bool {
    forall|i: int| 0 <= i < s.len() ==> (#[trigger] s[i]).length < n
}

/// Carving an allocation out of a gap never grows any gap: once no gap can
/// hold `n` samples, no gap can after further allocations either.
pub proof fn lemma_carve_keeps_gap_bounds(
    gaps_pre: Seq<Allocation>,
    gaps_post: Seq<Allocation>,
    n0: u32,
    a: Allocation,
    n: int,
)
    requires
        first_fit_carve(gaps_pre, gaps_post, n0, a),
        all_gaps_below(gaps_pre, n),
    ensures
        all_gaps_below(gaps_post, n),
{
    let i = choose|i: int|
        {
            &&& 0 <= i < gaps_pre.len()
            &&& (#[trigger] gaps_pre[i]).length >= n0
            &&& forall|j: int| 0 <= j < i ==> (#[trigger] gaps_pre[j]).length < n0
            &&& a.offset == gaps_pre[i].offset
            &&& gaps_post == (if gaps_pre[i].length == n0 {
                gaps_pre.remove(i)
            } else {
                gaps_pre.update(
                    i,
                    (Allocation {
                        offset: (gaps_pre[i].offset + n0) as u32,
                        length: (gaps_pre[i].length - n0) as u32,
                    }),
                )
            })
        };
    assert forall|k: int| 0 <= k < gaps_post.len() implies (#[trigger] gaps_post[k]).length
        < n by {
        if gaps_pre[i].length == n0 {
            if k < i {
                assert(gaps_post[k] == gaps_pre[k]);
            } else {
                assert(gaps_post[k] == gaps_pre[k + 1]);
            }
        } else {
            if k != i {
                assert(gaps_post[k] == gaps_pre[k]);
            } else {
                assert(gaps_pre[i].length < n);
            }
        }
    }
}

/// The allocation is the prefix of the first gap that can hold `n`
/// samples, and the remainder of that gap, if any, stays in the free list.
pub open spec fn first_fit_carve(
    gaps_pre: Seq<Allocation>,
    gaps_post: Seq<Allocation>,
    n: u32,
    a: Allocation,
) -> bool {
    exists|i: int|
        {
            &&& 0 <= i < gaps_pre.len()
            &&& (#[trigger] gaps_pre[i]).length >= n
            &&& forall|j: int| 0 <= j < i ==> (#[trigger] gaps_pre[j]).length < n
            &&& a.offset == gaps_pre[i].offset
            &&& gaps_post == (if gaps_pre[i].length == n {
                gaps_pre.remove(i)
            } else {
                gaps_pre.update(
                    i,
                    (Allocation {
                        offset: (gaps_pre[i].offset + n) as u32,
                        length: (gaps_pre[i].length - n) as u32,
                    }),
                )
            })
        }
}

/// Transition claimed by a failed `allocate`: nothing changed, the request
/// was non-empty, and no free gap could hold it.
pub open spec fn allocate_exhausted(pre: PointArena, post: PointArena, n: u32) -> bool {
    &&& post.capacity == pre.capacity
    &&& post.gaps@ == pre.gaps@
    &&& post.live@ == pre.live@
    &&& post.store@ == pre.store@
    &&& n > 0
    &&& forall|i: int| 0 <= i < pre.gaps@.len() ==> (#[trigger] pre.gaps@[i]).length < n
}

/// Transition claimed by `free`: one occurrence of the surrendered
/// allocation leaves the live set, the stored samples are untouched, and if
/// the range was non-empty it is covered again by a single free gap (so a
/// request of the same size can be satisfied immediately).
pub open spec fn free_effect(pre: PointArena, post: PointArena, a: Allocation) -> bool {
    &&& post.capacity == pre.capacity
    &&& post.store@ == pre.store@
    &&& if a.length == 0 {
        post.live@ == pre.live@ && post.gaps@ == pre.gaps@
    } else {
        &&& post.live@.to_multiset() == pre.live@.to_multiset().remove(a)
        &&& post.live@.len() == pre.live@.len() - 1
        &&& exists|i: int| 0 <= i < post.gaps@.len() && covers(#[trigger] post.gaps@[i], a)
        &&& forall|addr: int|
            gaps_cover(post.gaps@, addr) <==> (gaps_cover(pre.gaps@, addr) || (a.offset <= addr
                < a.offset + a.length))
    }
}

} // verus!
