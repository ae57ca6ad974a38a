//! Dynamic-programming stream assembler: choose best ordered paths
//! through offset-sorted fragments, one stream per round, until the
//! pool drains or the stream cap is reached.

use vstd::prelude::*;
use vstd::multiset::Multiset;
use crate::types::{AssembledStream, StreamFragment, StreamScoringWeights};
use crate::fragment_linker::jaccard_similarity;
use crate::numeric::u64_to_string;

verus! {

/// Fragment offsets never decrease.
pub open spec fn frags_sorted(s: Seq<StreamFragment>) -> bool {
    forall|a: int, b: int|
        0 <= a < b < s.len() ==> (#[trigger] s[a]).offset <= (#[trigger] s[b]).offset
}

/// Every fragment is well-formed.
pub open spec fn frags_wf(s: Seq<StreamFragment>) -> bool {
    forall|k: int| 0 <= k < s.len() ==> (#[trigger] s[k]).wf()
}

/// Sort fragments by offset, ascending; a permutation of the input.
pub fn sort_fragments_by_offset(fragments: Vec<StreamFragment>) -> (r: Vec<StreamFragment>)
    ensures
        frags_sorted(r@),
        r@.to_multiset() == fragments@.to_multiset(),
        r@.len() == fragments@.len(),
        frags_wf(fragments@) ==> frags_wf(r@),
{
    broadcast use vstd::seq_lib::group_to_multiset_ensures;

    let mut src: Vec<StreamFragment> = fragments;
    let mut out: Vec<StreamFragment> = Vec::new();
    let ghost orig: Seq<StreamFragment> = src@;
    while src.len() > 0
        invariant
            out@.to_multiset().add(src@.to_multiset()) == orig.to_multiset(),
            out@.len() + src@.len() == orig.len(),
            frags_sorted(out@),
            frags_wf(orig) ==> frags_wf(out@) && frags_wf(src@),
            forall|a: int, b: int|
                0 <= a < out@.len() && 0 <= b < src@.len() ==> (#[trigger] out@[a]).offset <= (
                #[trigger] src@[b]).offset,
        decreases src@.len(),
    {
        let mut m: usize = 0;
        let mut j: usize = 1;
        while j < src.len()
            invariant
                1 <= j <= src@.len() || src@.len() == 0,
                m < j || (m == 0 && j <= 1),
                m < src@.len(),
                src@.len() > 0,
                forall|q: int| 0 <= q < j ==> (#[trigger] src@[q]).offset >= src@[m as int].offset,
            decreases src@.len() - j,
        {
            if src[j].offset < src[m].offset {
                m = j;
            }
            j = j + 1;
        }
        let ghost src_before: Seq<StreamFragment> = src@;
        let picked: StreamFragment = src.remove(m);
        out.push(picked);
        proof {
            broadcast use vstd::seq_lib::group_to_multiset_ensures;

            assert(src_before.contains(src_before[m as int]));
            assert(src_before.to_multiset().count(picked) > 0);
            assert(src@.to_multiset() =~= src_before.to_multiset().remove(picked));
            assert(out@.to_multiset().add(src@.to_multiset()) =~= orig.to_multiset());
            if frags_wf(orig) {
                assert(picked.wf());
                assert(frags_wf(out@));
            }
        }
    }
    proof {
        broadcast use vstd::seq_lib::group_to_multiset_ensures;

        assert(src@.to_multiset() =~= Multiset::<StreamFragment>::empty());
        assert(out@.to_multiset().add(Multiset::<StreamFragment>::empty())
            =~= out@.to_multiset());
    }
    out
}

/// Score the edge from `left` into `right`, in milli-points, or `None`
/// when the pair is out of reach: a gap above `max_gap`, an overlap
/// above `max_overlap`, or a score under `min_edge_score`.
///
/// The pair sits within the configured gap and overlap caps: the only
/// adjacencies the edge builder admits.
pub open spec fn spec_pair_within(
    a: StreamFragment,
    b: StreamFragment,
    w: StreamScoringWeights,
) -> bool {
    let left_end = a.offset + a.size;
    let gap: int = if b.offset >= left_end {
        b.offset - left_end
    } else {
        0
    };
    let overlap: int = if b.offset >= left_end {
        0
    } else {
        left_end - b.offset
    };
    gap <= w.max_gap && overlap <= w.max_overlap
}

/// The score is the gap and overlap penalties (scaled by how much of
/// the cap is used), the type bonus or penalty, the weighted cosine and
/// Jaccard similarities, and the structure bonus for two structured
/// sides.
pub fn edge_score(
    left: &StreamFragment,
    right: &StreamFragment,
    weights: &StreamScoringWeights,
) -> (r: Option<i64>)
    requires
        left.wf(),
        right.wf(),
        weights.wf(),
    ensures
        r is Some ==> weights.min_edge_score <= r->0 <= 0x10_0000_0000,
        r is Some ==> -0x10_0000_0000 <= r->0,
        ({
            let left_end = left.offset + left.size;
            let gap: int = if right.offset >= left_end {
                right.offset - left_end
            } else {
                0
            };
            let overlap: int = if right.offset >= left_end {
                0
            } else {
                left_end - right.offset
            };
            (gap > weights.max_gap || overlap > weights.max_overlap) ==> r is None
        }),
{
    let left_end: u64 = left.end_offset();
    let right_start: u64 = right.offset;
    let gap: u64 = if right_start >= left_end {
        right_start - left_end
    } else {
        0
    };
    let overlap: u64 = if right_start >= left_end {
        0
    } else {
        left_end - right_start
    };
    if gap > weights.max_gap || overlap > weights.max_overlap {
        return None;
    }
    let mut score: i64 = 0;
    if weights.max_gap > 0 {
        let gap_part: u64 = {
            proof {
                assert((gap as u128) * (weights.gap_penalty as u128) < 0x1_0000_0000_0000_0000_0000_0000)
                    by (nonlinear_arith)
                    requires
                        gap <= 0xffff_ffff_ffff_ffff,
                        0 <= weights.gap_penalty <= 0x1_0000_0000,
                ;
            }
            let wide: u128 = (gap as u128) * (weights.gap_penalty as u128) / (
            weights.max_gap as u128);
            proof {
                assert((gap as int) * (weights.gap_penalty as int) <= (weights.max_gap as int)
                    * (weights.gap_penalty as int)) by (nonlinear_arith)
                    requires
                        gap <= weights.max_gap,
                        weights.gap_penalty >= 0,
                ;
                vstd::arithmetic::div_mod::lemma_div_is_ordered(
                    (gap as int) * (weights.gap_penalty as int),
                    (weights.max_gap as int) * (weights.gap_penalty as int),
                    weights.max_gap as int,
                );
                vstd::arithmetic::div_mod::lemma_div_multiples_vanish(
                    weights.gap_penalty as int,
                    weights.max_gap as int,
                );
                assert((weights.max_gap as int) * (weights.gap_penalty as int) == (
                weights.gap_penalty as int) * (weights.max_gap as int)) by (nonlinear_arith);
            }
            wide as u64
        };
        score = score - gap_part as i64;
    }
    if weights.max_overlap > 0 {
        let ovl_part: u64 = {
            proof {
                assert((overlap as u128) * (weights.overlap_penalty as u128)
                    < 0x1_0000_0000_0000_0000_0000_0000) by (nonlinear_arith)
                    requires
                        overlap <= 0xffff_ffff_ffff_ffff,
                        0 <= weights.overlap_penalty <= 0x1_0000_0000,
                ;
            }
            let wide: u128 = (overlap as u128) * (weights.overlap_penalty as u128) / (
            weights.max_overlap as u128);
            proof {
                assert((overlap as int) * (weights.overlap_penalty as int) <= (
                weights.max_overlap as int) * (weights.overlap_penalty as int))
                    by (nonlinear_arith)
                    requires
                        overlap <= weights.max_overlap,
                        weights.overlap_penalty >= 0,
                ;
                vstd::arithmetic::div_mod::lemma_div_is_ordered(
                    (overlap as int) * (weights.overlap_penalty as int),
                    (weights.max_overlap as int) * (weights.overlap_penalty as int),
                    weights.max_overlap as int,
                );
                vstd::arithmetic::div_mod::lemma_div_multiples_vanish(
                    weights.overlap_penalty as int,
                    weights.max_overlap as int,
                );
                assert((weights.max_overlap as int) * (weights.overlap_penalty as int) == (
                weights.overlap_penalty as int) * (weights.max_overlap as int))
                    by (nonlinear_arith);
            }
            wide as u64
        };
        score = score - ovl_part as i64;
    }
    if left.file_type == right.file_type {
        score = score + weights.type_match_bonus;
    } else {
        score = score - weights.type_mismatch_penalty;
    }
    let cosine: u32 = left.feature_vector.cosine_similarity(&right.feature_vector);
    let jaccard: u32 = jaccard_similarity(&left.links, &right.links);
    proof {
        assert((cosine as int) * (weights.cosine_weight as int) <= 1000 * 0x100000)
            by (nonlinear_arith)
            requires
                cosine <= 1000,
                weights.cosine_weight <= 0x100000,
        ;
        assert((jaccard as int) * (weights.jaccard_weight as int) <= 1000 * 0x100000)
            by (nonlinear_arith)
            requires
                jaccard <= 1000,
                weights.jaccard_weight <= 0x100000,
        ;
    }
    score = score + (cosine as i64) * weights.cosine_weight;
    score = score + (jaccard as i64) * weights.jaccard_weight;
    if left.has_valid_structure() && right.has_valid_structure() {
        score = score + weights.structure_bonus;
    }
    if score < weights.min_edge_score {
        None
    } else {
        Some(score)
    }
}

/// The best-score table is locally optimal for the given edge lists:
/// no recorded incoming edge can improve any node's best score.
pub open spec fn dp_optimal(nodes: Seq<i64>, edges: Seq<Seq<(usize, i64)>>, best: Seq<i64>) -> bool {
    forall|i: int, k: int|
        0 <= i < nodes.len() && 0 <= k < edges[i].len() ==> best[(#[trigger] edges[i][k]).0 as int]
            + edges[i][k].1 + nodes[i] <= best[i]
}

/// Longest-best-score dynamic programme over offset-ordered nodes.
///
/// `edges[i]` lists candidate predecessors of `i` with their edge
/// scores. The result is locally optimal by construction: each node's
/// best score beats every recorded single-edge alternative, so no
/// single-edge swap can produce a higher path score. The chosen
/// predecessor (`prev`) and its edge score (`edge_to`) witness how each
/// best score was reached.
pub fn best_path_dp(nodes: &Vec<i64>, edges: &Vec<Vec<(usize, i64)>>) -> (r: (
    Vec<i64>,
    Vec<Option<usize>>,
    Vec<i64>,
))
    requires
        nodes@.len() == edges@.len(),
        nodes@.len() <= 0x40000,
        forall|i: int| 0 <= i < nodes@.len() ==> 0 <= #[trigger] nodes@[i] <= 0x400_0000_0000,
        forall|i: int, k: int|
            0 <= i < edges@.len() && 0 <= k < edges@[i].len() ==> (#[trigger] edges@[i][k]).0
                < i && -0x400_0000_0000 <= edges@[i][k].1 <= 0x400_0000_0000,
    ensures
        ({
            let (best, prev, edge_to) = r;
            &&& best@.len() == nodes@.len()
            &&& prev@.len() == nodes@.len()
            &&& edge_to@.len() == nodes@.len()
            &&& dp_optimal(nodes@, edges@.map_values(|v: Vec<(usize, i64)>| v@), best@)
            &&& forall|i: int| 0 <= i < nodes@.len() ==> #[trigger] best@[i] >= nodes@[i]
            &&& forall|i: int|
                0 <= i < nodes@.len() ==> 0 <= #[trigger] best@[i] <= (i + 1) * 0x800_0000_0000
            &&& forall|i: int|
                0 <= i < nodes@.len() ==> ((#[trigger] prev@[i]) is Some ==> prev@[i]->0 < i
                    && best@[i] == best@[prev@[i]->0 as int] + edge_to@[i] + nodes@[i])
            &&& forall|i: int|
                0 <= i < nodes@.len() ==> ((#[trigger] prev@[i]) is None ==> best@[i] == nodes@[i])
            &&& forall|i: int|
                0 <= i < nodes@.len() ==> ((#[trigger] prev@[i]) is Some ==> (exists|k: int|
                    0 <= k < edges@[i].len() && (#[trigger] edges@[i][k]).0 == prev@[i]->0))
        }),
{
    let n: usize = nodes.len();
    let ghost sedges: Seq<Seq<(usize, i64)>> = edges@.map_values(|v: Vec<(usize, i64)>| v@);
    let mut best: Vec<i64> = Vec::new();
    let mut prev: Vec<Option<usize>> = Vec::new();
    let mut edge_to: Vec<i64> = Vec::new();
    let mut i: usize = 0;
    while i < n
        invariant
            n == nodes@.len() == edges@.len() <= 0x40000,
            sedges == edges@.map_values(|v: Vec<(usize, i64)>| v@),
            best@.len() == i <= n,
            prev@.len() == i,
            edge_to@.len() == i,
            forall|q: int| 0 <= q < nodes@.len() ==> 0 <= #[trigger] nodes@[q] <= 0x400_0000_0000,
            forall|q: int, k: int|
                0 <= q < edges@.len() && 0 <= k < edges@[q].len() ==> (#[trigger] edges@[q][k]).0
                    < q && -0x400_0000_0000 <= edges@[q][k].1 <= 0x400_0000_0000,
            forall|q: int, k: int|
                0 <= q < i && 0 <= k < sedges[q].len() ==> best@[(#[trigger] sedges[q][k]).0 as int]
                    + sedges[q][k].1 + nodes@[q] <= best@[q],
            forall|q: int| 0 <= q < i ==> #[trigger] best@[q] >= nodes@[q],
            forall|q: int| 0 <= q < i ==> 0 <= #[trigger] best@[q] <= (q + 1) * 0x800_0000_0000,
            forall|q: int|
                0 <= q < i ==> ((#[trigger] prev@[q]) is Some ==> prev@[q]->0 < q && best@[q]
                    == best@[prev@[q]->0 as int] + edge_to@[q] + nodes@[q]),
            forall|q: int| 0 <= q < i ==> ((#[trigger] prev@[q]) is None ==> best@[q] == nodes@[q]),
            forall|q: int|
                0 <= q < i ==> ((#[trigger] prev@[q]) is Some ==> (exists|k: int|
                    0 <= k < edges@[q].len() && (#[trigger] edges@[q][k]).0 == prev@[q]->0)),
        decreases n - i,
    {
        let node_score: i64 = nodes[i];
        let mut best_i: i64 = node_score;
        let mut prev_i: Option<usize> = None;
        let mut edge_i: i64 = 0;
        let incoming: &Vec<(usize, i64)> = &edges[i];
        let mut k: usize = 0;
        while k < incoming.len()
            invariant
                n == nodes@.len() == edges@.len() <= 0x40000,
                sedges == edges@.map_values(|v: Vec<(usize, i64)>| v@),
                i < n,
                best@.len() == i,
                incoming@ == sedges[i as int],
                k <= incoming@.len(),
                node_score == nodes@[i as int],
                forall|q: int|
                    0 <= q < nodes@.len() ==> 0 <= #[trigger] nodes@[q] <= 0x400_0000_0000,
                forall|kk: int|
                    0 <= kk < incoming@.len() ==> (#[trigger] incoming@[kk]).0 < i
                        && -0x400_0000_0000 <= incoming@[kk].1 <= 0x400_0000_0000,
                forall|q: int|
                    0 <= q < i ==> 0 <= #[trigger] best@[q] <= (q + 1) * 0x800_0000_0000,
                forall|kk: int|
                    0 <= kk < k ==> best@[(#[trigger] incoming@[kk]).0 as int] + incoming@[kk].1
                        + node_score <= best_i,
                node_score <= best_i,
                prev_i is Some ==> prev_i->0 < i && best_i == best@[prev_i->0 as int] + edge_i
                    + node_score,
                prev_i is None ==> best_i == node_score,
                prev_i is Some ==> (exists|kk: int|
                    0 <= kk < incoming@.len() && (#[trigger] incoming@[kk]).0 == prev_i->0),
                0 <= best_i <= (i + 1) * 0x800_0000_0000,
            decreases incoming@.len() - k,
        {
            let (j, e): (usize, i64) = incoming[k];
            proof {
                assert((i as int) * 0x800_0000_0000 <= 0x40000 * 0x800_0000_0000)
                    by (nonlinear_arith)
                    requires
                        i <= 0x40000,
                ;
            }
            let cand: i64 = best[j] + e + node_score;
            if cand > best_i {
                proof {
                    assert(((j as int) + 1) * 0x800_0000_0000 <= (i as int)
                        * 0x800_0000_0000) by (nonlinear_arith)
                        requires
                            (j as int) + 1 <= i as int,
                    ;
                    assert((incoming@[k as int]).0 == j);
                }
                best_i = cand;
                prev_i = Some(j);
                edge_i = e;
            }
            k = k + 1;
        }
        proof {
            assert((i as int) * 0x800_0000_0000 + 0x800_0000_0000 == ((i as int) + 1)
                * 0x800_0000_0000) by (nonlinear_arith);
        }
        best.push(best_i);
        prev.push(prev_i);
        edge_to.push(edge_i);
        i = i + 1;
    }
    (best, prev, edge_to)
}

/// Follow the `prev` chain from `start` back to a path start; indices
/// come back ascending and end at `start`.
fn reconstruct_path(prev: &Vec<Option<usize>>, start: usize) -> (r: Vec<usize>)
    requires
        start < prev@.len(),
        forall|q: int|
            0 <= q < prev@.len() ==> ((#[trigger] prev@[q]) is Some ==> prev@[q]->0 < q),
    ensures
        r@.len() >= 1,
        r@[r@.len() - 1] == start,
        forall|a: int, b: int| 0 <= a < b < r@.len() ==> #[trigger] r@[a] < #[trigger] r@[b],
        forall|a: int| 0 <= a < r@.len() ==> #[trigger] r@[a] < prev@.len(),
        // Consecutive path members are linked by the chosen
        // predecessors.
        forall|t: int|
            0 <= t < r@.len() - 1 ==> (#[trigger] prev@[r@[t + 1] as int]) is Some && prev@[r@[t
                + 1] as int]->0 == r@[t],
{
    let mut rev: Vec<usize> = Vec::new();
    let mut current: usize = start;
    let mut done: bool = false;
    rev.push(start);
    while !done
        invariant
            rev@.len() >= 1,
            rev@[0] == start,
            current < prev@.len(),
            rev@[rev@.len() - 1] == current,
            forall|a: int, b: int| 0 <= a < b < rev@.len() ==> #[trigger] rev@[a] > #[trigger] rev@[b],
            forall|a: int| 0 <= a < rev@.len() ==> #[trigger] rev@[a] < prev@.len(),
            forall|q: int|
                0 <= q < prev@.len() ==> ((#[trigger] prev@[q]) is Some ==> prev@[q]->0 < q),
            forall|a: int|
                0 <= a < rev@.len() - 1 ==> (#[trigger] prev@[rev@[a] as int]) is Some
                    && prev@[rev@[a] as int]->0 == rev@[a + 1],
        decreases current + (if done {
            0int
        } else {
            1int
        }),
    {
        let ghost rev0: Seq<usize> = rev@;
        match prev[current] {
            Some(p) => {
                rev.push(p);
                proof {
                    assert forall|a: int|
                        0 <= a < rev@.len() - 1 implies (#[trigger] prev@[rev@[a] as int])
                        is Some && prev@[rev@[a] as int]->0 == rev@[a + 1] by {
                        if a < rev0.len() - 1 {
                            assert(rev@[a] == rev0[a]);
                            assert(rev@[a + 1] == rev0[a + 1]);
                        } else {
                            assert(rev@[a] == current);
                            assert(rev@[a + 1] == p);
                        }
                    }
                }
                current = p;
            },
            None => {
                done = true;
            },
        }
    }
    // Reverse into ascending order.
    let mut out: Vec<usize> = Vec::new();
    let mut i: usize = rev.len();
    while i > 0
        invariant
            i <= rev@.len(),
            out@.len() == rev@.len() - i,
            forall|a: int| 0 <= a < out@.len() ==> out@[a] == rev@[rev@.len() - 1 - a],
            forall|a: int, b: int| 0 <= a < b < rev@.len() ==> #[trigger] rev@[a] > #[trigger] rev@[b],
            forall|a: int| 0 <= a < rev@.len() ==> #[trigger] rev@[a] < prev@.len(),
            forall|a: int|
                0 <= a < rev@.len() - 1 ==> (#[trigger] prev@[rev@[a] as int]) is Some
                    && prev@[rev@[a] as int]->0 == rev@[a + 1],
        decreases i,
    {
        i = i - 1;
        out.push(rev[i]);
    }
    proof {
        assert(out@[out@.len() - 1] == rev@[0]);
        assert forall|a: int, b: int| 0 <= a < b < out@.len() implies #[trigger] out@[a]
            < #[trigger] out@[b] by {
            assert(out@[a] == rev@[rev@.len() - 1 - a]);
            assert(out@[b] == rev@[rev@.len() - 1 - b]);
        }
        assert forall|t: int|
            0 <= t < out@.len() - 1 implies (#[trigger] prev@[out@[t + 1] as int]) is Some
            && prev@[out@[t + 1] as int]->0 == out@[t] by {
            assert(out@[t + 1] == rev@[rev@.len() - 2 - t]);
            assert(out@[t] == rev@[rev@.len() - 1 - t]);
            assert(prev@[rev@[rev@.len() - 2 - t] as int]->0 == rev@[rev@.len() - 1 - t]);
        }
    }
    out
}

/// Assemble streams with the default weights and a cap of three.
pub fn assemble_streams(fragments: Vec<StreamFragment>) -> (r: Vec<AssembledStream>)
    requires
        frags_wf(fragments@),
        fragments@.len() <= 0x40000,
    ensures
        r@.len() <= 3,
        forall|s: int|
            0 <= s < r@.len() ==> (#[trigger] r@[s]).fragments@.len() >= 1 && frags_sorted(
                r@[s].fragments@,
            ),
        fragments@.len() > 0 ==> r@.len() >= 1,
        spec_streams_total_len(r@) == fragments@.len() || r@.len() == 3,
        spec_streams_frags(r@).subset_of(fragments@.to_multiset()),
        forall|s: int|
            0 <= s < r@.len() ==> (#[trigger] r@[s]).confidence == spec_stream_confidence(
                r@[s].total_score as int,
                r@[s].fragments@.len() as int,
            ),
{
    let weights = StreamScoringWeights::default();
    assemble_streams_with_weights(fragments, &weights, None)
}

/// Assemble up to `max_streams` streams (default three): each round
/// runs the DP over the remaining fragments, carves out the best path
/// as one stream, and repeats.
///
/// Every returned stream is non-empty with offsets never decreasing,
/// and the streams together hold at most as many fragments as came in:
/// each input fragment lands in at most one stream.
pub fn assemble_streams_with_weights(
    fragments: Vec<StreamFragment>,
    weights: &StreamScoringWeights,
    max_streams: Option<usize>,
) -> (r: Vec<AssembledStream>)
    requires
        frags_wf(fragments@),
        weights.wf(),
        fragments@.len() <= 0x40000,
    ensures
        forall|s: int|
            0 <= s < r@.len() ==> (#[trigger] r@[s]).fragments@.len() >= 1 && frags_sorted(
                r@[s].fragments@,
            ),
        max_streams is Some && max_streams->0 >= 1 ==> r@.len() <= max_streams->0,
        max_streams is None ==> r@.len() <= 3,
        spec_streams_total_len(r@) <= fragments@.len(),
        // No fragment lands in two streams: together the streams hold
        // a sub-multiset of the input.
        spec_streams_frags(r@).subset_of(fragments@.to_multiset()),
        // A non-empty pool yields at least one stream, and rounds run
        // until the pool drains or the stream cap is reached.
        fragments@.len() > 0 ==> r@.len() >= 1,
        spec_streams_total_len(r@) == fragments@.len() || r@.len() == (
        if max_streams is Some && max_streams->0 >= 1 {
            max_streams->0 as int
        } else if max_streams is Some {
            1int
        } else {
            3int
        }),
        // Confidence is the per-fragment share of the path score,
        // clamped at zero.
        forall|s: int|
            0 <= s < r@.len() ==> (#[trigger] r@[s]).confidence == spec_stream_confidence(
                r@[s].total_score as int,
                r@[s].fragments@.len() as int,
            ),
        // Stream membership respects the gap and overlap caps:
        // consecutive members were admitted as an edge.
        forall|s: int, t: int|
            0 <= s < r@.len() && 0 <= t < (#[trigger] r@[s]).fragments@.len() - 1
                ==> spec_pair_within(
                #[trigger] r@[s].fragments@[t],
                r@[s].fragments@[t + 1],
                *weights,
            ),
{
    let limit: usize = match max_streams {
        Some(m) => {
            if m >= 1 {
                m
            } else {
                1
            }
        },
        None => 3,
    };
    broadcast use vstd::seq_lib::group_to_multiset_ensures;

    let mut streams: Vec<AssembledStream> = Vec::new();
    if fragments.len() == 0 {
        proof {
            assert(spec_streams_frags(streams@) =~= Multiset::<StreamFragment>::empty());
            assert(Multiset::<StreamFragment>::empty().subset_of(fragments@.to_multiset()));
        }
        return streams;
    }
    let ghost orig_ms: Multiset<StreamFragment> = fragments@.to_multiset();
    let mut remaining: Vec<StreamFragment> = sort_fragments_by_offset(fragments);
    let ghost total_in: int = remaining@.len() as int;
    proof {
        assert(spec_streams_frags(streams@) =~= Multiset::<StreamFragment>::empty());
    }
    while remaining.len() > 0 && streams.len() < limit
        invariant
            weights.wf(),
            frags_sorted(remaining@),
            frags_wf(remaining@),
            remaining@.len() + spec_streams_total_len(streams@) == total_in,
            total_in <= 0x40000,
            spec_streams_frags(streams@).add(remaining@.to_multiset()) == orig_ms,
            forall|s: int|
                0 <= s < streams@.len() ==> (#[trigger] streams@[s]).fragments@.len() >= 1
                    && frags_sorted(streams@[s].fragments@),
            streams@.len() <= limit,
            streams@.len() >= 1 || remaining@.len() == total_in,
            forall|s: int, t: int|
                0 <= s < streams@.len() && 0 <= t < (#[trigger] streams@[s]).fragments@.len() - 1
                    ==> spec_pair_within(
                    #[trigger] streams@[s].fragments@[t],
                    streams@[s].fragments@[t + 1],
                    *weights,
                ),
            forall|s: int|
                0 <= s < streams@.len() ==> (#[trigger] streams@[s]).confidence
                    == spec_stream_confidence(
                    streams@[s].total_score as int,
                    streams@[s].fragments@.len() as int,
                ),
        ensures
            frags_sorted(remaining@),
            remaining@.len() + spec_streams_total_len(streams@) == total_in,
            remaining@.len() == 0 || streams@.len() == limit,
            spec_streams_frags(streams@).add(remaining@.to_multiset()) == orig_ms,
            forall|s: int|
                0 <= s < streams@.len() ==> (#[trigger] streams@[s]).fragments@.len() >= 1
                    && frags_sorted(streams@[s].fragments@),
            streams@.len() <= limit,
            streams@.len() >= 1 || remaining@.len() == total_in,
            forall|s: int, t: int|
                0 <= s < streams@.len() && 0 <= t < (#[trigger] streams@[s]).fragments@.len() - 1
                    ==> spec_pair_within(
                    #[trigger] streams@[s].fragments@[t],
                    streams@[s].fragments@[t + 1],
                    *weights,
                ),
            forall|s: int|
                0 <= s < streams@.len() ==> (#[trigger] streams@[s]).confidence
                    == spec_stream_confidence(
                    streams@[s].total_score as int,
                    streams@[s].fragments@.len() as int,
                ),
        decreases remaining@.len(), limit - streams@.len(),
    {
        let n: usize = remaining.len();
        // Node scores and candidate edges within the lookback window.
        let mut nodes: Vec<i64> = Vec::new();
        let mut i: usize = 0;
        while i < n
            invariant
                n == remaining@.len(),
                frags_wf(remaining@),
                i <= n,
                nodes@.len() == i,
                forall|q: int| 0 <= q < i ==> 0 <= #[trigger] nodes@[q] <= 0x400_0000_0000,
            decreases n - i,
        {
            let t: i64 = remaining[i].total_score();
            nodes.push(t);
            i = i + 1;
        }
        let mut edges: Vec<Vec<(usize, i64)>> = Vec::new();
        let mut i2: usize = 0;
        while i2 < n
            invariant
                n == remaining@.len() <= 0x40000,
                weights.wf(),
                frags_wf(remaining@),
                i2 <= n,
                edges@.len() == i2,
                forall|q: int, k: int|
                    0 <= q < i2 && 0 <= k < edges@[q]@.len() ==> ((#[trigger] edges@[q]@[k]).0 < q
                        && -0x400_0000_0000 <= edges@[q]@[k].1 <= 0x400_0000_0000),
                forall|q: int, k: int|
                    0 <= q < i2 && 0 <= k < edges@[q]@.len() ==> spec_pair_within(
                        remaining@[(#[trigger] edges@[q]@[k]).0 as int],
                        remaining@[q],
                        *weights,
                    ),
            decreases n - i2,
        {
            let mut incoming: Vec<(usize, i64)> = Vec::new();
            let from: usize = if i2 > weights.max_lookback {
                i2 - weights.max_lookback
            } else {
                0
            };
            let mut j: usize = from;
            while j < i2
                invariant
                    n == remaining@.len() <= 0x40000,
                    weights.wf(),
                    frags_wf(remaining@),
                    i2 < n,
                    from <= j <= i2,
                    forall|k: int|
                        0 <= k < incoming@.len() ==> ((#[trigger] incoming@[k]).0 < i2
                            && -0x400_0000_0000 <= incoming@[k].1 <= 0x400_0000_0000),
                    forall|k: int|
                        0 <= k < incoming@.len() ==> spec_pair_within(
                            remaining@[(#[trigger] incoming@[k]).0 as int],
                            remaining@[i2 as int],
                            *weights,
                        ),
                decreases i2 - j,
            {
                match edge_score(&remaining[j], &remaining[i2], weights) {
                    Some(e) => {
                        incoming.push((j, e));
                    },
                    None => {
                    },
                }
                j = j + 1;
            }
            edges.push(incoming);
            i2 = i2 + 1;
        }
        proof {
            assert(forall|q: int, k: int|
                0 <= q < edges@.len() && 0 <= k < edges@[q]@.len() ==> ((
                #[trigger] edges@[q]@[k]).0 < q && -0x400_0000_0000 <= edges@[q]@[k].1
                    <= 0x400_0000_0000));
            assert(forall|q: int, k: int|
                0 <= q < edges@.len() && 0 <= k < edges@[q]@.len() ==> spec_pair_within(
                    remaining@[(#[trigger] edges@[q]@[k]).0 as int],
                    remaining@[q],
                    *weights,
                ));
        }
        let (best, prev, edge_to): (Vec<i64>, Vec<Option<usize>>, Vec<i64>) = best_path_dp(
            &nodes,
            &edges,
        );
        // Earliest index with the maximal best score.
        let mut chosen: usize = 0;
        let mut c: usize = 1;
        while c < n
            invariant
                n == remaining@.len(),
                best@.len() == n,
                chosen < c <= n || (chosen == 0 && c <= 1),
                chosen < n,
                n > 0,
                forall|q: int| 0 <= q < c ==> #[trigger] best@[q] <= best@[chosen as int],
            decreases n - c,
        {
            if best[c] > best[chosen] {
                chosen = c;
            }
            c = c + 1;
        }
        let path: Vec<usize> = reconstruct_path(&prev, chosen);
        proof {
            assert(path@[path@.len() - 1] == chosen);
            assert(path@.contains(chosen));
        }
        // Split the remaining pool: path members become the stream.
        let mut stream_frags: Vec<StreamFragment> = Vec::new();
        let mut rest: Vec<StreamFragment> = Vec::new();
        let mut pos: usize = 0;
        let rb_len: usize = remaining.len();
        let ghost rem_before: Seq<StreamFragment> = remaining@;
        proof {
            broadcast use vstd::seq_lib::group_to_multiset_ensures;

            assert(stream_frags@.to_multiset() =~= Multiset::<StreamFragment>::empty());
            assert(rest@.to_multiset() =~= Multiset::<StreamFragment>::empty());
            assert(stream_frags@.to_multiset().add(rest@.to_multiset()).add(
                remaining@.to_multiset(),
            ) =~= rem_before.to_multiset());
        }
        while remaining.len() > 0
            invariant
                rem_before.len() == rb_len,
                stream_frags@.to_multiset().add(rest@.to_multiset()).add(
                    remaining@.to_multiset(),
                ) == rem_before.to_multiset(),
                pos + remaining@.len() == rem_before.len(),
                forall|q: int|
                    0 <= q < remaining@.len() ==> #[trigger] remaining@[q] == rem_before[pos + q],
                frags_sorted(rem_before),
                frags_wf(rem_before),
                stream_frags@.len() + rest@.len() == pos,
                frags_sorted(stream_frags@),
                frags_sorted(rest@),
                frags_wf(stream_frags@),
                frags_wf(rest@),
                forall|a: int, b: int|
                    0 <= a < stream_frags@.len() && 0 <= b < remaining@.len() ==> (
                    #[trigger] stream_frags@[a]).offset <= (#[trigger] remaining@[b]).offset,
                forall|a: int, b: int|
                    0 <= a < rest@.len() && 0 <= b < remaining@.len() ==> (
                    #[trigger] rest@[a]).offset <= (#[trigger] remaining@[b]).offset,
                path@.contains(chosen),
                chosen < rem_before.len(),
                stream_frags@.len() >= 1 || pos <= chosen,
                forall|a: int, b: int|
                    0 <= a < b < path@.len() ==> #[trigger] path@[a] < #[trigger] path@[b],
                forall|a: int| 0 <= a < path@.len() ==> #[trigger] path@[a] < rem_before.len(),
                stream_frags@.len() <= path@.len(),
                forall|t: int|
                    0 <= t < stream_frags@.len() ==> #[trigger] stream_frags@[t] == rem_before[
                    path@[t] as int],
                forall|t: int|
                    0 <= t < path@.len() ==> ((#[trigger] path@[t] < pos) <==> t
                        < stream_frags@.len()),
            decreases remaining@.len(),
        {
            let ghost rem_now: Seq<StreamFragment> = remaining@;
            let e: StreamFragment = remaining.remove(0);
            proof {
                broadcast use vstd::seq_lib::group_to_multiset_ensures;

                assert(e == rem_before[pos as int]);
                assert forall|q: int| 0 <= q < remaining@.len() implies #[trigger] remaining@[q]
                    == rem_before[pos + 1 + q] by {
                }
                assert(rem_now.contains(rem_now[0]));
                assert(rem_now.to_multiset().count(e) > 0);
                assert(remaining@.to_multiset() =~= rem_now.to_multiset().remove(e));
            }
            let ghost sf0: Seq<StreamFragment> = stream_frags@;
            if contains_usize(&path, pos) {
                proof {
                    // `pos` is the next path entry: the earlier ones
                    // are exactly those already carved.
                    let u = choose|u: int| 0 <= u < path@.len() && path@[u] == pos;
                    assert(u >= sf0.len());
                    assert(sf0.len() < path@.len());
                    assert(path@[sf0.len() as int] >= pos);
                    if u > sf0.len() {
                        assert(path@[sf0.len() as int] < path@[u]);
                    }
                    assert(path@[sf0.len() as int] == pos);
                }
                stream_frags.push(e);
                proof {
                    assert forall|t: int|
                        0 <= t < path@.len() implies ((#[trigger] path@[t] < pos + 1) <==> t
                        < stream_frags@.len()) by {
                        if t < sf0.len() {
                            assert(path@[t] < pos);
                        } else if t == sf0.len() {
                            assert(path@[t] == pos);
                        } else {
                            assert(path@[sf0.len() as int] < path@[t]);
                        }
                    }
                    assert forall|t: int|
                        0 <= t < stream_frags@.len() implies #[trigger] stream_frags@[t]
                        == rem_before[path@[t] as int] by {
                        if t < sf0.len() {
                            assert(stream_frags@[t] == sf0[t]);
                        } else {
                            assert(stream_frags@[t] == e);
                            assert(path@[t] == pos);
                        }
                    }
                }
            } else {
                proof {
                    assert forall|t: int|
                        0 <= t < path@.len() implies ((#[trigger] path@[t] < pos + 1) <==> t
                        < stream_frags@.len()) by {
                        assert(path@[t] != pos);
                    }
                }
                rest.push(e);
            }
            proof {
                broadcast use vstd::seq_lib::group_to_multiset_ensures;

                assert(stream_frags@.to_multiset().add(rest@.to_multiset()).add(
                    remaining@.to_multiset(),
                ) =~= rem_before.to_multiset());
            }
            pos = pos + 1;
        }
        proof {
            // The path names the chosen position, so the carve-out is
            // never empty.
            assert(stream_frags@.len() >= 1);
            // Every path entry was carved, so the stream mirrors the
            // path; consecutive members were admitted as edges.
            assert(stream_frags@.len() == path@.len());
            assert forall|t: int|
                0 <= t < stream_frags@.len() - 1 implies spec_pair_within(
                #[trigger] stream_frags@[t],
                stream_frags@[t + 1],
                *weights,
            ) by {
                let a = path@[t] as int;
                let b = path@[t + 1] as int;
                assert(prev@[b] is Some && prev@[b]->0 == path@[t]);
                let k = choose|k: int| 0 <= k < edges@[b].len() && (#[trigger] edges@[b][
                k]).0 == prev@[b]->0;
                assert(edges@[b]@[k].0 == path@[t]);
                assert(spec_pair_within(
                    rem_before[(edges@[b]@[k].0) as int],
                    rem_before[b],
                    *weights,
                ));
                assert(stream_frags@[t] == rem_before[a]);
                assert(stream_frags@[t + 1] == rem_before[b]);
            }
        }
        let total_score: i64 = best[chosen];
        let frag_count: u64 = stream_frags.len() as u64;
        let confidence: i64 = {
            let c0: i64 = total_score / (frag_count as i64);
            if c0 > 0 {
                c0
            } else {
                0
            }
        };
        proof {
            assert(confidence == spec_stream_confidence(
                total_score as int,
                stream_frags@.len() as int,
            ));
        }
        let mut reasons: Vec<String> = Vec::new();
        let mut reason1: String = String::from_str("fragments=");
        reason1.append(u64_to_string(frag_count).as_str());
        reasons.push(reason1);
        let mut reason2: String = String::from_str("path_score_milli=");
        reason2.append(i64_to_string(total_score).as_str());
        reasons.push(reason2);
        let ghost streams_before: Seq<AssembledStream> = streams@;
        let stream = AssembledStream { fragments: stream_frags, confidence, total_score, reasons };
        streams.push(stream);
        proof {
            lemma_streams_total_len_push(streams_before, stream);
            lemma_streams_frags_push(streams_before, stream);
            assert(streams@ =~= streams_before.push(stream));
            assert(spec_streams_frags(streams@).add(rest@.to_multiset()) =~= orig_ms);
        }
        remaining = rest;
    }
    proof {
        broadcast use vstd::seq_lib::group_to_multiset_ensures;

        assert forall|x: StreamFragment|
            spec_streams_frags(streams@).count(x) <= orig_ms.count(x) by {
            assert(spec_streams_frags(streams@).count(x) + remaining@.to_multiset().count(x)
                == orig_ms.count(x));
        }
        assert(limit as int == (if max_streams is Some && max_streams->0 >= 1 {
            max_streams->0 as int
        } else if max_streams is Some {
            1int
        } else {
            3int
        }));
        if remaining@.len() == 0 {
            assert(spec_streams_total_len(streams@) == total_in);
        } else {
            assert(streams@.len() == limit);
        }
        if fragments@.len() > 0 {
            assert(total_in > 0);
            if streams@.len() == 0 {
                assert(remaining@.len() == total_in);
                assert(remaining@.len() != 0);
                assert(streams@.len() == limit);
                assert(limit >= 1);
                assert(false);
            }
        }
    }
    streams
}

/// The confidence of a stream: its score per fragment, clamped at
/// zero.
pub open spec fn spec_stream_confidence(total: int, count: int) -> int {
    if count > 0 && total / count > 0 {
        total / count
    } else {
        0
    }
}

/// All fragments across the streams, as one multiset.
pub open spec fn spec_streams_frags(streams: Seq<AssembledStream>) -> Multiset<StreamFragment>
    decreases streams.len(),
{
    if streams.len() == 0 {
        Multiset::empty()
    } else {
        spec_streams_frags(streams.drop_last()).add(streams.last().fragments@.to_multiset())
    }
}

proof fn lemma_streams_frags_push(streams: Seq<AssembledStream>, s: AssembledStream)
    ensures
        spec_streams_frags(streams.push(s)) == spec_streams_frags(streams).add(
            s.fragments@.to_multiset(),
        ),
{
    assert(streams.push(s).drop_last() =~= streams);
    assert(streams.push(s).last() == s);
}

/// Total number of fragments across the streams.
pub open spec fn spec_streams_total_len(streams: Seq<AssembledStream>) -> nat
    decreases streams.len(),
{
    if streams.len() == 0 {
        0
    } else {
        spec_streams_total_len(streams.drop_last()) + streams.last().fragments@.len()
    }
}

proof fn lemma_streams_total_len_push(streams: Seq<AssembledStream>, s: AssembledStream)
    ensures
        spec_streams_total_len(streams.push(s)) == spec_streams_total_len(streams)
            + s.fragments@.len(),
{
    assert(streams.push(s).drop_last() =~= streams);
    assert(streams.push(s).last() == s);
}

/// Linear membership test on a `usize` vector.
fn contains_usize(v: &Vec<usize>, x: usize) -> (r: bool)
    ensures
        r == v@.contains(x),
{
    let mut i: usize = 0;
    while i < v.len()
        invariant
            i <= v@.len(),
            forall|k: int| 0 <= k < i ==> v@[k] != x,
        decreases v@.len() - i,
    {
        if v[i] == x {
            return true;
        }
        i = i + 1;
    }
    false
}

/// Render a signed value in decimal.
fn i64_to_string(n: i64) -> (r: String)
    ensures
        r@.len() >= 1,
{
    if n >= 0 {
        u64_to_string(n as u64)
    } else {
        let mut out: String = String::from_str("-");
        let magnitude: u64 = if n == i64::MIN {
            0x8000_0000_0000_0000
        } else {
            (-n) as u64
        };
        out.append(u64_to_string(magnitude).as_str());
        proof {
            reveal_strlit("-");
        }
        out
    }
}

} // verus!
