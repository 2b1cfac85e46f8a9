//! Mathematical model of the compressed range set.
//!
//! A range set at resolution `depth` (0 to 29) is a sequence of half-open
//! ranges `[start, end)` over the canonical depth-29 identifier space.  Every
//! boundary is a multiple of the cell width `4^(29 - depth)`, so each range
//! covers a whole number of cells at `depth`.  The model defines validity,
//! the flattened label sequence, per-range position offsets, and the lemmas
//! connecting them.

use vstd::arithmetic::div_mod::{
    lemma_div_pos_is_pos, lemma_fundamental_div_mod, lemma_mod_multiples_basic,
};
use vstd::arithmetic::power2::{lemma_pow2_adds, lemma_pow2_pos, pow2};
use vstd::prelude::*;

verus! {

/// One past the largest canonical (depth-29) identifier: `12 * 4^29`.
pub open spec fn domain_end() -> int {
    0x3000_0000_0000_0000
}

/// Width, in canonical identifiers, of one cell at `depth`: `4^(29 - depth)`.
pub open spec fn cell_width(depth: int) -> int
    recommends
        0 <= depth <= 29,
{
    pow2((2 * (29 - depth)) as nat) as int
}

/// Number of cells at `depth`: `12 * 4^depth`.
pub open spec fn n_cells(depth: int) -> int
    recommends
        0 <= depth <= 29,
{
    12 * pow2((2 * depth) as nat) as int
}

/// A single well-formed range: non-empty, inside the canonical domain, and
/// aligned to whole cells at `depth`.
pub open spec fn valid_range(r: (u64, u64), depth: int) -> bool {
    &&& (r.0 as int) < (r.1 as int) <= domain_end()
    &&& r.0 as int % cell_width(depth) == 0
    &&& r.1 as int % cell_width(depth) == 0
}

/// A well-formed range set: every range well-formed, sorted ascending, and
/// strictly separated (disjoint and never adjacent, i.e. maximally merged).
pub open spec fn valid_ranges(rs: Seq<(u64, u64)>, depth: int) -> bool {
    &&& forall|i: int| 0 <= i < rs.len() ==> valid_range(#[trigger] rs[i], depth)
    &&& forall|i: int| 0 <= i && i + 1 < rs.len() ==> (#[trigger] rs[i]).1 < rs[i + 1].0
}

/// First cell (at `depth`) covered by the range.
pub open spec fn cell_lo(r: (u64, u64), depth: int) -> int {
    r.0 as int / cell_width(depth)
}

/// One past the last cell (at `depth`) covered by the range.
pub open spec fn cell_hi(r: (u64, u64), depth: int) -> int {
    r.1 as int / cell_width(depth)
}

/// Number of cells at `depth` covered by the range.
pub open spec fn range_len(r: (u64, u64), depth: int) -> int {
    cell_hi(r, depth) - cell_lo(r, depth)
}

/// The ascending cell ids covered by one range.
pub open spec fn label_run(r: (u64, u64), depth: int) -> Seq<u64> {
    Seq::new((range_len(r, depth)) as nat, |k: int| (cell_lo(r, depth) + k) as u64)
}

/// The ascending cell ids covered by a range set: the flattening of its
/// ranges in order.
pub open spec fn labels_of(rs: Seq<(u64, u64)>, depth: int) -> Seq<u64>
    decreases rs.len(),
{
    if rs.len() == 0 {
        Seq::empty()
    } else {
        label_run(rs[0], depth) + labels_of(rs.drop_first(), depth)
    }
}

/// Total number of cells at `depth` covered by a range set.
pub open spec fn total_len(rs: Seq<(u64, u64)>, depth: int) -> int
    decreases rs.len(),
{
    if rs.len() == 0 {
        0
    } else {
        range_len(rs[0], depth) + total_len(rs.drop_first(), depth)
    }
}

/// Position of the first cell of range `i`: the cumulative length of the
/// ranges before it.
pub open spec fn offset_at(rs: Seq<(u64, u64)>, depth: int, i: int) -> int {
    total_len(rs.take(i), depth)
}

/// Whether some range of the set contains the canonical identifier `x`.
pub open spec fn covers_point(rs: Seq<(u64, u64)>, x: int) -> bool {
    exists|i: int| 0 <= i < rs.len() && (#[trigger] rs[i]).0 <= x && x < rs[i].1
}

/// Whether some range of the set contains the cell `c` at `depth`.
pub open spec fn covers_cell(rs: Seq<(u64, u64)>, depth: int, c: int) -> bool {
    exists|i: int|
        0 <= i < rs.len() && cell_lo(#[trigger] rs[i], depth) <= c && c < cell_hi(rs[i], depth)
}

/// `x` clamped below at zero.
pub open spec fn clamp0(x: int) -> int {
    if x > 0 {
        x
    } else {
        0
    }
}

/// The ranges that remain after keeping only positions `[lo, hi)` of the
/// flattened enumeration: the contiguous positional walk of `isel`.
///
/// Each range either lies wholly before `lo` (skipped, with both counters
/// reduced by its length), overlaps (its overlapping part is emitted), or
/// lies at or beyond `hi` (dropped).
pub open spec fn slice_clips(rs: Seq<(u64, u64)>, depth: int, lo: int, hi: int) -> Seq<(u64, u64)>
    recommends
        0 <= lo,
    decreases rs.len(),
{
    if rs.len() == 0 {
        Seq::empty()
    } else {
        let n0 = range_len(rs[0], depth);
        let rest = slice_clips(rs.drop_first(), depth, clamp0(lo - n0), clamp0(hi - n0));
        if lo < n0 && hi > lo {
            let a = cell_lo(rs[0], depth);
            let hi1 = if hi < n0 {
                hi
            } else {
                n0
            };
            seq![
                (((a + lo) * cell_width(depth)) as u64, ((a + hi1) * cell_width(depth)) as u64),
            ] + rest
        } else {
            rest
        }
    }
}

/// Upper position actually selected: `hi` clamped into `[0, total]`.
pub open spec fn clip_hi_bound(rs: Seq<(u64, u64)>, depth: int, hi: int) -> int {
    let t = total_len(rs, depth);
    if clamp0(hi) > t {
        t
    } else {
        clamp0(hi)
    }
}

/// Lower position actually selected: `lo` clamped above by the upper bound.
pub open spec fn clip_lo_bound(rs: Seq<(u64, u64)>, depth: int, lo: int, hi: int) -> int {
    let h = clip_hi_bound(rs, depth, hi);
    if lo > h {
        h
    } else {
        lo
    }
}

/// An empty position window selects nothing, whatever the ranges.
pub proof fn lemma_clips_empty(rs: Seq<(u64, u64)>, depth: int, lo: int, hi: int)
    requires
        hi <= lo,
    ensures
        slice_clips(rs, depth, lo, hi) == Seq::<(u64, u64)>::empty(),
    decreases rs.len(),
{
    if rs.len() > 0 {
        let n0 = range_len(rs[0], depth);
        lemma_clips_empty(rs.drop_first(), depth, clamp0(lo - n0), clamp0(hi - n0));
    }
}

/// The main theorem of the positional walk: on a valid range set the
/// emitted clips are themselves a valid range set, they start no earlier
/// than the input, and their flattened labels are exactly the requested
/// positional subrange of the input's flattened labels.
#[verifier::rlimit(100)]
pub proof fn lemma_slice_clips(rs: Seq<(u64, u64)>, depth: int, lo: int, hi: int)
    requires
        0 <= depth <= 29,
        valid_ranges(rs, depth),
        0 <= lo,
    ensures
        valid_ranges(slice_clips(rs, depth, lo, hi), depth),
        slice_clips(rs, depth, lo, hi).len() > 0 ==> rs.len() > 0 && (slice_clips(
            rs,
            depth,
            lo,
            hi,
        )[0].0 as int) >= rs[0].0 as int,
        labels_of(slice_clips(rs, depth, lo, hi), depth) == labels_of(rs, depth).subrange(
            clip_lo_bound(rs, depth, lo, hi),
            clip_hi_bound(rs, depth, hi),
        ),
    decreases rs.len(),
{
    let clips = slice_clips(rs, depth, lo, hi);
    let t = total_len(rs, depth);
    lemma_total_len_nonneg(rs, depth);
    lemma_labels_len(rs, depth);
    let lo_b = clip_lo_bound(rs, depth, lo, hi);
    let hi_b = clip_hi_bound(rs, depth, hi);
    if rs.len() == 0 {
        assert(labels_of(rs, depth).subrange(lo_b, hi_b) =~= Seq::<u64>::empty());
    } else if hi <= lo {
        lemma_clips_empty(rs, depth, lo, hi);
        assert(hi_b <= lo);
        assert(lo_b == hi_b);
        assert(labels_of(rs, depth).subrange(lo_b, hi_b) =~= Seq::<u64>::empty());
    } else {
        let w = cell_width(depth);
        lemma_width_pos(depth);
        let n0 = range_len(rs[0], depth);
        let a = cell_lo(rs[0], depth);
        let b = cell_hi(rs[0], depth);
        lemma_range_cells(rs[0], depth);
        lemma_valid_drop_first(rs, depth);
        lemma_total_len_nonneg(rs.drop_first(), depth);
        lemma_labels_len(rs.drop_first(), depth);
        let run = label_run(rs[0], depth);
        let lrest = labels_of(rs.drop_first(), depth);
        let all = labels_of(rs, depth);
        let t0 = total_len(rs.drop_first(), depth);
        assert(forall|j: int| 0 <= j < n0 ==> all[j] == run[j]);
        assert(forall|j: int| n0 <= j < t ==> all[j] == lrest[j - n0]);
        if rs.len() > 1 {
            assert(rs[0].1 < rs[1].0);
            assert(rs.drop_first()[0] == rs[1]);
        }
        if lo >= n0 {
            lemma_slice_clips(rs.drop_first(), depth, lo - n0, hi - n0);
            let lo_b2 = clip_lo_bound(rs.drop_first(), depth, lo - n0, hi - n0);
            let hi_b2 = clip_hi_bound(rs.drop_first(), depth, hi - n0);
            assert(clamp0(lo - n0) == lo - n0 && clamp0(hi - n0) == hi - n0);
            assert(clips == slice_clips(rs.drop_first(), depth, lo - n0, hi - n0));
            assert(hi_b == hi_b2 + n0);
            assert(lo_b == lo_b2 + n0);
            if clips.len() > 0 {
                assert((clips[0].0 as int) >= rs.drop_first()[0].0 as int);
                assert((rs[1].0 as int) > rs[0].0 as int);
            }
            assert(all.subrange(lo_b, hi_b) =~= lrest.subrange(lo_b2, hi_b2));
        } else {
            // the head range overlaps the window
            let hi1 = if hi < n0 {
                hi
            } else {
                n0
            };
            let head = ((((a + lo) * w) as u64), (((a + hi1) * w) as u64));
            lemma_slice_clips(rs.drop_first(), depth, 0, clamp0(hi - n0));
            let crest = slice_clips(rs.drop_first(), depth, 0, clamp0(hi - n0));
            assert(clips == seq![head] + crest);
            // head is a valid range
            lemma_cells_times_width(depth);
            assert((a + hi1) * w <= b * w && (a + lo) * w < (a + hi1) * w && a * w <= (a + lo)
                * w) by (nonlinear_arith)
                requires
                    w >= 1 && 0 <= lo < hi1 <= n0 && n0 == b - a && 0 <= a,
            ;
            assert(b * w == rs[0].1 as int);
            assert((a + lo) * w % w == 0 && (a + hi1) * w % w == 0) by {
                lemma_mod_multiples_basic(a + lo, w);
                lemma_mod_multiples_basic(a + hi1, w);
            }
            assert(valid_range(head, depth));
            assert(cell_lo(head, depth) == a + lo && cell_hi(head, depth) == a + hi1) by {
                vstd::arithmetic::div_mod::lemma_div_by_multiple(a + lo, w);
                vstd::arithmetic::div_mod::lemma_div_by_multiple(a + hi1, w);
            }
            // the joined list is valid and starts within the first range
            if crest.len() > 0 {
                assert((crest[0].0 as int) >= rs[1].0 as int);
                assert((head.1 as int) <= rs[0].1 as int);
                assert(forall|j: int| 0 <= j < crest.len() ==> clips[j + 1] == crest[j]);
                assert(valid_ranges(clips, depth)) by {
                    assert(forall|j: int| 0 <= j < clips.len() ==> valid_range(#[trigger] clips[j], depth));
                    assert(forall|j: int|
                        0 <= j && j + 1 < clips.len() ==> (#[trigger] clips[j]).1 < clips[j
                            + 1].0);
                }
            } else {
                assert(clips =~= seq![head]);
            }
            // labels of the head clip are the head run's overlapped part
            let headrun = label_run(head, depth);
            assert(headrun.len() == hi1 - lo);
            assert(forall|k: int| 0 <= k < hi1 - lo ==> headrun[k] == run[lo + k]);
            // put the label pieces together
            let sub2 = lrest.subrange(
                clip_lo_bound(rs.drop_first(), depth, 0, clamp0(hi - n0)),
                clip_hi_bound(rs.drop_first(), depth, clamp0(hi - n0)),
            );
            assert(labels_of(crest, depth) == sub2);
            assert(labels_of(clips, depth) == headrun + labels_of(crest, depth)) by {
                assert(clips.drop_first() =~= crest);
            }
            assert(lo_b == lo);
            if hi <= t {
                assert(hi_b == hi);
            } else {
                assert(hi_b == t);
            }
            assert(labels_of(clips, depth) =~= all.subrange(lo_b, hi_b)) by {
                assert(clip_lo_bound(rs.drop_first(), depth, 0, clamp0(hi - n0)) == 0);
                assert(clip_hi_bound(rs.drop_first(), depth, clamp0(hi - n0)) == clamp0(
                    if hi - n0 > t0 {
                        t0
                    } else {
                        hi - n0
                    },
                ));
                assert(forall|k: int|
                    0 <= k < hi1 - lo ==> labels_of(clips, depth)[k] == all[lo + k]);
                assert(forall|k: int|
                    hi1 - lo <= k < labels_of(clips, depth).len() ==> labels_of(clips, depth)[k]
                        == sub2[k - (hi1 - lo)]);
            }
        }
    }
}

/// A covered identifier is never below the first range's start.
proof fn lemma_covered_at_least_first(rs: Seq<(u64, u64)>, depth: int, x: int)
    requires
        valid_ranges(rs, depth),
        covers_point(rs, x),
    ensures
        rs.len() > 0 && x >= rs[0].0 as int,
{
    let j = choose|j: int| 0 <= j < rs.len() && (#[trigger] rs[j]).0 <= x && x < rs[j].1;
    if j > 0 {
        lemma_ranges_ordered(rs, depth, 0, j);
    }
}

/// The end of the first range falls into the gap after it: not covered.
proof fn lemma_first_end_uncovered(rs: Seq<(u64, u64)>, depth: int)
    requires
        valid_ranges(rs, depth),
        rs.len() > 0,
    ensures
        !covers_point(rs, rs[0].1 as int),
{
    if covers_point(rs, rs[0].1 as int) {
        let j = choose|j: int|
            0 <= j < rs.len() && (#[trigger] rs[j]).0 <= rs[0].1 as int && (rs[0].1 as int) < rs[j].1;
        if j > 0 {
            lemma_ranges_ordered(rs, depth, 0, j);
        }
    }
}

/// Coverage at or past the first range's end comes from the tail.
proof fn lemma_covers_in_tail(rs: Seq<(u64, u64)>, depth: int, x: int)
    requires
        valid_ranges(rs, depth),
        rs.len() > 0,
        x >= rs[0].1 as int,
        covers_point(rs, x),
    ensures
        covers_point(rs.drop_first(), x),
{
    let k = choose|k: int| 0 <= k < rs.len() && (#[trigger] rs[k]).0 <= x && x < rs[k].1;
    assert(k > 0);
    assert(rs.drop_first()[k - 1] == rs[k]);
}

/// Coverage in the tail is coverage of the whole, past the first range.
proof fn lemma_covers_from_tail(rs: Seq<(u64, u64)>, depth: int, x: int)
    requires
        valid_ranges(rs, depth),
        rs.len() > 0,
        covers_point(rs.drop_first(), x),
    ensures
        covers_point(rs, x),
        x > rs[0].1 as int,
{
    let j = choose|j: int|
        0 <= j < rs.drop_first().len() && (#[trigger] rs.drop_first()[j]).0 <= x && x
            < rs.drop_first()[j].1;
    assert(rs.drop_first()[j] == rs[j + 1]);
    lemma_ranges_ordered(rs, depth, 0, j + 1);
    assert(covers_point(rs, x));
}

/// Equal coverage forces equal first ranges.
proof fn lemma_first_range_agrees(rs1: Seq<(u64, u64)>, rs2: Seq<(u64, u64)>, depth: int)
    requires
        0 <= depth <= 29,
        valid_ranges(rs1, depth),
        valid_ranges(rs2, depth),
        rs1.len() > 0,
        rs2.len() > 0,
        forall|x: int| covers_point(rs1, x) <==> covers_point(rs2, x),
    ensures
        rs1[0] == rs2[0],
{
    assert(covers_point(rs1, rs1[0].0 as int));
    assert(covers_point(rs2, rs2[0].0 as int));
    lemma_covered_at_least_first(rs2, depth, rs1[0].0 as int);
    lemma_covered_at_least_first(rs1, depth, rs2[0].0 as int);
    assert(rs1[0].0 == rs2[0].0);
    lemma_first_end_uncovered(rs1, depth);
    lemma_first_end_uncovered(rs2, depth);
    if (rs1[0].1 as int) < rs2[0].1 as int {
        assert(covers_point(rs2, rs1[0].1 as int));
        assert(false);
    }
    if (rs2[0].1 as int) < rs1[0].1 as int {
        assert(covers_point(rs1, rs2[0].1 as int));
        assert(false);
    }
}

/// With equal first ranges and equal coverage, the tails cover alike.
proof fn lemma_tails_cover_alike(rs1: Seq<(u64, u64)>, rs2: Seq<(u64, u64)>, depth: int)
    requires
        0 <= depth <= 29,
        valid_ranges(rs1, depth),
        valid_ranges(rs2, depth),
        rs1.len() > 0,
        rs2.len() > 0,
        rs1[0] == rs2[0],
        forall|x: int| covers_point(rs1, x) <==> covers_point(rs2, x),
    ensures
        forall|x: int|
            covers_point(rs1.drop_first(), x) <==> covers_point(rs2.drop_first(), x),
{
    assert forall|x: int|
        covers_point(rs1.drop_first(), x) <==> covers_point(rs2.drop_first(), x) by {
        if covers_point(rs1.drop_first(), x) {
            lemma_covers_from_tail(rs1, depth, x);
            lemma_covers_in_tail(rs2, depth, x);
        }
        if covers_point(rs2.drop_first(), x) {
            lemma_covers_from_tail(rs2, depth, x);
            lemma_covers_in_tail(rs1, depth, x);
        }
    }
}

/// Law of canonical form: a valid range set is determined by the
/// identifiers it covers — two valid sets at one depth with the same
/// coverage are identical.
#[verifier::rlimit(100)]
pub proof fn lemma_covers_determine_ranges(rs1: Seq<(u64, u64)>, rs2: Seq<(u64, u64)>, depth: int)
    requires
        0 <= depth <= 29,
        valid_ranges(rs1, depth),
        valid_ranges(rs2, depth),
        forall|x: int| covers_point(rs1, x) <==> covers_point(rs2, x),
    ensures
        rs1 == rs2,
    decreases rs1.len(),
{
    if rs1.len() == 0 {
        if rs2.len() > 0 {
            assert(covers_point(rs2, rs2[0].0 as int));
            lemma_covered_at_least_first(rs1, depth, rs2[0].0 as int);
        }
        assert(rs1 =~= rs2);
    } else if rs2.len() == 0 {
        assert(covers_point(rs1, rs1[0].0 as int));
        lemma_covered_at_least_first(rs2, depth, rs1[0].0 as int);
    } else {
        lemma_first_range_agrees(rs1, rs2, depth);
        lemma_valid_drop_first(rs1, depth);
        lemma_valid_drop_first(rs2, depth);
        lemma_tails_cover_alike(rs1, rs2, depth);
        lemma_covers_determine_ranges(rs1.drop_first(), rs2.drop_first(), depth);
        assert(rs1.len() == rs2.len());
        assert forall|i: int| 0 <= i < rs1.len() implies rs1[i] == rs2[i] by {
            if i > 0 {
                assert(rs1.drop_first()[i - 1] == rs1[i]);
                assert(rs2.drop_first()[i - 1] == rs2[i]);
            }
        }
        assert(rs1 =~= rs2);
    }
}

/// Law of idempotence: the positional walk over every position, `[0,
/// total)`, emits the range set unchanged.
pub proof fn lemma_full_clips_identity(rs: Seq<(u64, u64)>, depth: int)
    requires
        0 <= depth <= 29,
        valid_ranges(rs, depth),
    ensures
        slice_clips(rs, depth, 0, total_len(rs, depth)) == rs,
    decreases rs.len(),
{
    let t = total_len(rs, depth);
    if rs.len() == 0 {
        assert(slice_clips(rs, depth, 0, t) =~= rs);
    } else {
        let w = cell_width(depth);
        lemma_width_pos(depth);
        let n0 = range_len(rs[0], depth);
        lemma_range_cells(rs[0], depth);
        lemma_valid_drop_first(rs, depth);
        lemma_total_len_nonneg(rs.drop_first(), depth);
        lemma_full_clips_identity(rs.drop_first(), depth);
        let a = cell_lo(rs[0], depth);
        let b = cell_hi(rs[0], depth);
        assert(clamp0(0 - n0) == 0 && clamp0(t - n0) == total_len(rs.drop_first(), depth));
        let hi1: int = if t < n0 {
            t
        } else {
            n0
        };
        assert(hi1 == n0);
        assert(((a + 0) * w) == rs[0].0 as int && ((a + n0) * w) == rs[0].1 as int) by {
            assert((a + n0) * w == b * w);
        }
        assert(slice_clips(rs, depth, 0, t) =~= seq![rs[0]] + rs.drop_first());
        assert(seq![rs[0]] + rs.drop_first() =~= rs);
    }
}

/// Position (rank) of the cell `c` in the flattened ascending enumeration.
/// Meaningful when some range covers `c`.
pub open spec fn cell_position(rs: Seq<(u64, u64)>, depth: int, c: int) -> int
    decreases rs.len(),
{
    if rs.len() == 0 {
        0
    } else if c < cell_hi(rs[0], depth) {
        c - cell_lo(rs[0], depth)
    } else {
        range_len(rs[0], depth) + cell_position(rs.drop_first(), depth, c)
    }
}

/// Ranges earlier in a valid set end strictly before later ones begin.
pub proof fn lemma_ranges_ordered(rs: Seq<(u64, u64)>, depth: int, i: int, j: int)
    requires
        valid_ranges(rs, depth),
        0 <= i < j < rs.len(),
    ensures
        (rs[i].1 as int) < rs[j].0 as int,
        (rs[i].0 as int) < rs[j].0 as int,
    decreases j - i,
{
    if j == i + 1 {
    } else {
        lemma_ranges_ordered(rs, depth, i, j - 1);
    }
}

/// The position of a covered cell indexes exactly that cell in the
/// flattened enumeration.
pub proof fn lemma_cell_position(rs: Seq<(u64, u64)>, depth: int, c: int)
    requires
        0 <= depth <= 29,
        valid_ranges(rs, depth),
        covers_cell(rs, depth, c),
    ensures
        0 <= cell_position(rs, depth, c) < total_len(rs, depth),
        labels_of(rs, depth).len() == total_len(rs, depth),
        labels_of(rs, depth)[cell_position(rs, depth, c)] == c as u64,
    decreases rs.len(),
{
    lemma_labels_len(rs, depth);
    lemma_range_cells(rs[0], depth);
    lemma_valid_drop_first(rs, depth);
    let i = choose|i: int|
        0 <= i < rs.len() && cell_lo(#[trigger] rs[i], depth) <= c && c < cell_hi(rs[i], depth);
    lemma_range_cells(rs[i], depth);
    let n0 = range_len(rs[0], depth);
    let run = label_run(rs[0], depth);
    let lrest = labels_of(rs.drop_first(), depth);
    lemma_labels_len(rs.drop_first(), depth);
    lemma_total_len_nonneg(rs.drop_first(), depth);
    if c < cell_hi(rs[0], depth) {
        // the covering range must be the first one
        if i > 0 {
            lemma_ranges_ordered(rs, depth, 0, i);
            lemma_width_pos(depth);
            lemma_aligned_div_le(rs[0].1 as int, rs[i].0 as int, cell_width(depth));
            assert(false);
        }
        assert(labels_of(rs, depth)[c - cell_lo(rs[0], depth)] == run[c - cell_lo(rs[0], depth)]);
    } else {
        assert(i > 0) by {
            if i == 0 {
                assert(false);
            }
        }
        assert(rs.drop_first()[i - 1] == rs[i]);
        assert(covers_cell(rs.drop_first(), depth, c));
        lemma_cell_position(rs.drop_first(), depth, c);
        let p = cell_position(rs.drop_first(), depth, c);
        assert(labels_of(rs, depth)[n0 + p] == lrest[p]);
    }
}

/// A cell covered by range `i` sits at that range's offset plus the cell's
/// distance from the range's first cell.
pub proof fn lemma_cell_position_at(rs: Seq<(u64, u64)>, depth: int, c: int, i: int)
    requires
        0 <= depth <= 29,
        valid_ranges(rs, depth),
        0 <= i < rs.len(),
        cell_lo(rs[i], depth) <= c < cell_hi(rs[i], depth),
    ensures
        cell_position(rs, depth, c) == offset_at(rs, depth, i) + (c - cell_lo(rs[i], depth)),
        covers_cell(rs, depth, c),
    decreases rs.len(),
{
    lemma_range_cells(rs[0], depth);
    lemma_range_cells(rs[i], depth);
    lemma_valid_drop_first(rs, depth);
    let n0 = range_len(rs[0], depth);
    if i == 0 {
        assert(offset_at(rs, depth, 0) == 0) by {
            assert(rs.take(0) =~= Seq::<(u64, u64)>::empty());
        }
    } else {
        lemma_ranges_ordered(rs, depth, 0, i);
        lemma_width_pos(depth);
        lemma_aligned_div_le(rs[0].1 as int, rs[i].0 as int, cell_width(depth));
        assert(c >= cell_hi(rs[0], depth));
        assert(rs.drop_first()[i - 1] == rs[i]);
        lemma_cell_position_at(rs.drop_first(), depth, c, i - 1);
        lemma_offset_shift(rs, depth, i);
    }
}

/// A position's bracket between a range's offset and its end determines the
/// locating range.
pub proof fn lemma_locate_at(rs: Seq<(u64, u64)>, depth: int, p: int, i: int)
    requires
        0 <= depth <= 29,
        valid_ranges(rs, depth),
        0 <= i < rs.len(),
        offset_at(rs, depth, i) <= p < offset_at(rs, depth, i) + range_len(rs[i], depth),
    ensures
        p < total_len(rs, depth),
        labels_of(rs, depth).len() == total_len(rs, depth),
        labels_of(rs, depth)[p] == (cell_lo(rs[i], depth) + (p - offset_at(rs, depth, i))) as u64,
    decreases rs.len(),
{
    lemma_labels_len(rs, depth);
    lemma_valid_drop_first(rs, depth);
    lemma_range_cells(rs[0], depth);
    lemma_range_cells(rs[i], depth);
    let n0 = range_len(rs[0], depth);
    lemma_labels_len(rs.drop_first(), depth);
    lemma_total_len_nonneg(rs.drop_first(), depth);
    // the total splits around range i
    lemma_total_len_split(rs, depth, i);
    lemma_offset_at_succ(rs, depth, i);
    lemma_total_len_split(rs, depth, i + 1);
    lemma_valid_ranges_take(rs, depth, i + 1);
    lemma_total_len_nonneg(rs.skip(i + 1), depth);
    assert(p < total_len(rs, depth));
    if i == 0 {
        assert(offset_at(rs, depth, 0) == 0) by {
            assert(rs.take(0) =~= Seq::<(u64, u64)>::empty());
        }
        assert(labels_of(rs, depth)[p] == label_run(rs[0], depth)[p]);
    } else {
        lemma_offset_shift(rs, depth, i);
        assert(rs.drop_first()[i - 1] == rs[i]);
        lemma_locate_at(rs.drop_first(), depth, p - n0, i - 1);
        assert(offset_at(rs, depth, i) == n0 + offset_at(rs.drop_first(), depth, i - 1));
        lemma_valid_ranges_take(rs.drop_first(), depth, i - 1);
        lemma_total_len_nonneg(rs.drop_first().take(i - 1), depth);
        assert(p >= n0);
        assert(labels_of(rs, depth)[p] == labels_of(rs.drop_first(), depth)[p - n0]);
    }
}

// ------------------------------------------------------------------
// Arithmetic helpers for aligned values.
// ------------------------------------------------------------------
pub proof fn lemma_width_pos(depth: int)
    requires
        0 <= depth <= 29,
    ensures
        cell_width(depth) >= 1,
{
    lemma_pow2_pos((2 * (29 - depth)) as nat);
}

/// `n_cells(depth) * cell_width(depth)` is the whole canonical domain.
pub proof fn lemma_cells_times_width(depth: int)
    requires
        0 <= depth <= 29,
    ensures
        n_cells(depth) * cell_width(depth) == domain_end(),
{
    lemma_pow2_adds((2 * depth) as nat, (2 * (29 - depth)) as nat);
    vstd::arithmetic::power2::lemma2_to64_rest();
    assert(n_cells(depth) * cell_width(depth) == 12 * (pow2((2 * depth) as nat) * pow2(
        (2 * (29 - depth)) as nat,
    )) as int) by (nonlinear_arith);
}

/// Exact division of an aligned value by the width.
pub proof fn lemma_exact_div(x: int, w: int)
    requires
        w >= 1,
        0 <= x,
        x % w == 0,
    ensures
        (x / w) * w == x,
        x / w >= 0,
{
    lemma_fundamental_div_mod(x, w);
    lemma_div_pos_is_pos(x, w);
    let q = x / w;
    assert(q * w == x) by (nonlinear_arith)
        requires
            x == w * q + x % w && x % w == 0,
    ;
}

/// Strict order is preserved by dividing aligned values by the width.
pub proof fn lemma_aligned_div_lt(x: int, y: int, w: int)
    requires
        w >= 1,
        0 <= x,
        0 <= y,
        x % w == 0,
        y % w == 0,
        x < y,
    ensures
        x / w < y / w,
{
    lemma_exact_div(x, w);
    lemma_exact_div(y, w);
    assert(x / w < y / w) by (nonlinear_arith)
        requires
            w >= 1 && (x / w) * w == x && (y / w) * w == y && x < y,
    ;
}

/// Non-strict order is preserved by dividing aligned values by the width.
pub proof fn lemma_aligned_div_le(x: int, y: int, w: int)
    requires
        w >= 1,
        0 <= x,
        0 <= y,
        x % w == 0,
        y % w == 0,
        x <= y,
    ensures
        x / w <= y / w,
{
    if x < y {
        lemma_aligned_div_lt(x, y, w);
    }
}

/// The domain end is aligned at every depth.
pub proof fn lemma_domain_end_aligned(depth: int)
    requires
        0 <= depth <= 29,
    ensures
        domain_end() % cell_width(depth) == 0,
        domain_end() / cell_width(depth) == n_cells(depth),
{
    lemma_cells_times_width(depth);
    lemma_width_pos(depth);
    lemma_mod_multiples_basic(n_cells(depth), cell_width(depth));
    vstd::arithmetic::div_mod::lemma_div_by_multiple(n_cells(depth), cell_width(depth));
}

/// Cell bounds of a valid range: non-empty, inside the cell domain, and
/// multiplying back recovers the canonical bounds.
pub proof fn lemma_range_cells(r: (u64, u64), depth: int)
    requires
        0 <= depth <= 29,
        valid_range(r, depth),
    ensures
        0 <= cell_lo(r, depth) < cell_hi(r, depth) <= n_cells(depth),
        cell_lo(r, depth) * cell_width(depth) == r.0 as int,
        cell_hi(r, depth) * cell_width(depth) == r.1 as int,
        range_len(r, depth) >= 1,
{
    let w = cell_width(depth);
    lemma_width_pos(depth);
    lemma_exact_div(r.0 as int, w);
    lemma_exact_div(r.1 as int, w);
    lemma_aligned_div_lt(r.0 as int, r.1 as int, w);
    lemma_domain_end_aligned(depth);
    lemma_aligned_div_le(r.1 as int, domain_end(), w);
}

// ------------------------------------------------------------------
// Structure of the flattened label sequence.
// ------------------------------------------------------------------
pub proof fn lemma_total_len_nonneg(rs: Seq<(u64, u64)>, depth: int)
    requires
        0 <= depth <= 29,
        valid_ranges(rs, depth),
    ensures
        total_len(rs, depth) >= 0,
        rs.len() > 0 ==> total_len(rs, depth) >= range_len(rs[0], depth),
    decreases rs.len(),
{
    if rs.len() > 0 {
        lemma_range_cells(rs[0], depth);
        assert(valid_ranges(rs.drop_first(), depth)) by {
            assert(forall|i: int|
                0 <= i < rs.drop_first().len() ==> #[trigger] rs.drop_first()[i] == rs[i + 1]);
        }
        lemma_total_len_nonneg(rs.drop_first(), depth);
    }
}

pub proof fn lemma_valid_drop_first(rs: Seq<(u64, u64)>, depth: int)
    requires
        valid_ranges(rs, depth),
        rs.len() > 0,
    ensures
        valid_ranges(rs.drop_first(), depth),
{
    assert(forall|i: int|
        0 <= i < rs.drop_first().len() ==> #[trigger] rs.drop_first()[i] == rs[i + 1]);
}

/// The flattened label sequence is as long as the total cell count.
pub proof fn lemma_labels_len(rs: Seq<(u64, u64)>, depth: int)
    requires
        0 <= depth <= 29,
        valid_ranges(rs, depth),
    ensures
        labels_of(rs, depth).len() == total_len(rs, depth),
    decreases rs.len(),
{
    if rs.len() > 0 {
        lemma_range_cells(rs[0], depth);
        lemma_valid_drop_first(rs, depth);
        lemma_labels_len(rs.drop_first(), depth);
    }
}

/// Splitting a range set splits its totals.
pub proof fn lemma_total_len_split(rs: Seq<(u64, u64)>, depth: int, i: int)
    requires
        0 <= i <= rs.len(),
    ensures
        total_len(rs, depth) == total_len(rs.take(i), depth) + total_len(rs.skip(i), depth),
    decreases i,
{
    if i == 0 {
        assert(rs.take(0) =~= Seq::<(u64, u64)>::empty());
        assert(rs.skip(0) =~= rs);
    } else {
        lemma_total_len_split(rs.drop_first(), depth, i - 1);
        assert(rs.take(i).drop_first() =~= rs.drop_first().take(i - 1));
        assert(rs.skip(i) =~= rs.drop_first().skip(i - 1));
        assert(rs.take(i)[0] == rs[0]);
        assert(total_len(rs.take(i), depth) == range_len(rs[0], depth) + total_len(
            rs.drop_first().take(i - 1),
            depth,
        ));
    }
}

/// The offset of the next range is this range's offset plus its length.
pub proof fn lemma_offset_at_succ(rs: Seq<(u64, u64)>, depth: int, i: int)
    requires
        0 <= i < rs.len(),
    ensures
        offset_at(rs, depth, i + 1) == offset_at(rs, depth, i) + range_len(rs[i], depth),
    decreases i,
{
    if i == 0 {
        assert(rs.take(1).drop_first() =~= Seq::<(u64, u64)>::empty());
        assert(rs.take(0) =~= Seq::<(u64, u64)>::empty());
        assert(rs.take(1)[0] == rs[0]);
    } else {
        lemma_offset_at_succ(rs.drop_first(), depth, i - 1);
        assert(rs.take(i + 1).drop_first() =~= rs.drop_first().take(i));
        assert(rs.take(i).drop_first() =~= rs.drop_first().take(i - 1));
        assert(rs.take(i + 1)[0] == rs[0]);
        assert(rs.take(i)[0] == rs[0]);
        assert(rs.drop_first()[i - 1] == rs[i]);
        assert(rs.drop_first().take(i).drop_first() =~= rs.drop_first().take(i).drop_first());
    }
}

/// Concatenation structure of the flattened labels.
pub proof fn lemma_labels_split(rs: Seq<(u64, u64)>, depth: int, i: int)
    requires
        0 <= i <= rs.len(),
    ensures
        labels_of(rs, depth) == labels_of(rs.take(i), depth) + labels_of(rs.skip(i), depth),
    decreases i,
{
    if i == 0 {
        assert(rs.take(0) =~= Seq::<(u64, u64)>::empty());
        assert(rs.skip(0) =~= rs);
        assert(labels_of(rs, depth) =~= labels_of(rs.take(0), depth) + labels_of(
            rs.skip(0),
            depth,
        ));
    } else {
        lemma_labels_split(rs.drop_first(), depth, i - 1);
        assert(rs.take(i).drop_first() =~= rs.drop_first().take(i - 1));
        assert(rs.skip(i) =~= rs.drop_first().skip(i - 1));
        assert(rs.take(i)[0] == rs[0]);
        assert(labels_of(rs.take(i), depth) == label_run(rs[0], depth) + labels_of(
            rs.drop_first().take(i - 1),
            depth,
        ));
        assert(labels_of(rs, depth) =~= labels_of(rs.take(i), depth) + labels_of(
            rs.skip(i),
            depth,
        ));
    }
}

/// Offsets in a tail relate to offsets in the whole sequence.
pub proof fn lemma_offset_shift(rs: Seq<(u64, u64)>, depth: int, j: int)
    requires
        rs.len() > 0,
        1 <= j <= rs.len(),
    ensures
        offset_at(rs, depth, j) == range_len(rs[0], depth) + offset_at(
            rs.drop_first(),
            depth,
            j - 1,
        ),
{
    assert(rs.take(j).drop_first() =~= rs.drop_first().take(j - 1));
    assert(rs.take(j)[0] == rs[0]);
}

/// The flattened labels are strictly increasing (hence sorted and unique).
pub proof fn lemma_labels_sorted(rs: Seq<(u64, u64)>, depth: int)
    requires
        0 <= depth <= 29,
        valid_ranges(rs, depth),
    ensures
        forall|p: int, q: int|
            0 <= p < q < labels_of(rs, depth).len() ==> (labels_of(rs, depth)[p] as int) < (
            labels_of(rs, depth)[q] as int),
    decreases rs.len(),
{
    if rs.len() > 0 {
        lemma_range_cells(rs[0], depth);
        lemma_valid_drop_first(rs, depth);
        lemma_labels_sorted(rs.drop_first(), depth);
        lemma_labels_len(rs, depth);
        lemma_labels_len(rs.drop_first(), depth);
        lemma_total_len_nonneg(rs.drop_first(), depth);
        let run = label_run(rs[0], depth);
        let rest = labels_of(rs.drop_first(), depth);
        // every label of the tail is at least the first cell of the second range,
        // which lies strictly beyond the first range
        if rs.len() > 1 {
            assert(rs[0].1 < rs[1].0);
            lemma_range_cells(rs[1], depth);
            lemma_width_pos(depth);
            lemma_aligned_div_lt(rs[0].1 as int, rs[1].0 as int, cell_width(depth));
            lemma_labels_lower_bound(rs.drop_first(), depth);
        }
        assert(forall|p: int, q: int|
            0 <= p < q < labels_of(rs, depth).len() && q < run.len() ==> (labels_of(rs, depth)[p]
                as int) < (labels_of(rs, depth)[q] as int));
        assert(forall|p: int, q: int|
            0 <= p < q < labels_of(rs, depth).len() && p >= run.len() ==> (labels_of(rs, depth)[p]
                as int) < (labels_of(rs, depth)[q] as int));
        assert(forall|p: int, q: int|
            0 <= p < run.len() <= q < labels_of(rs, depth).len() ==> (labels_of(rs, depth)[p]
                as int) < (labels_of(rs, depth)[q] as int)) by {
            assert(forall|q: int|
                run.len() <= q < labels_of(rs, depth).len() ==> (labels_of(rs, depth)[q] as int)
                    >= cell_lo(rs[1], depth)) by {
                assert(forall|q: int|
                    run.len() <= q < labels_of(rs, depth).len() ==> labels_of(rs, depth)[q] == rest[
                    q - run.len()]);
            }
        }
    }
}

/// Every label of a valid set is at least the first cell of its first range
/// and strictly below the cell domain end.
pub proof fn lemma_labels_lower_bound(rs: Seq<(u64, u64)>, depth: int)
    requires
        0 <= depth <= 29,
        valid_ranges(rs, depth),
        rs.len() > 0,
    ensures
        forall|q: int|
            0 <= q < labels_of(rs, depth).len() ==> cell_lo(rs[0], depth) <= ((
            #[trigger] labels_of(rs, depth)[q]) as int) < n_cells(depth),
    decreases rs.len(),
{
    lemma_range_cells(rs[0], depth);
    lemma_valid_drop_first(rs, depth);
    lemma_labels_len(rs, depth);
    lemma_labels_len(rs.drop_first(), depth);
    let run = label_run(rs[0], depth);
    let rest = labels_of(rs.drop_first(), depth);
    if rs.len() > 1 {
        lemma_labels_lower_bound(rs.drop_first(), depth);
        assert(rs.drop_first()[0] == rs[1]);
        assert(rs[0].1 < rs[1].0);
        lemma_range_cells(rs[1], depth);
        lemma_width_pos(depth);
        lemma_aligned_div_lt(rs[0].1 as int, rs[1].0 as int, cell_width(depth));
    }
    assert(forall|q: int|
        run.len() <= q < labels_of(rs, depth).len() ==> labels_of(rs, depth)[q] == rest[q
            - run.len()]);
}

/// Total length of a valid set never exceeds the number of cells at `depth`.
pub proof fn lemma_total_len_bound(rs: Seq<(u64, u64)>, depth: int)
    requires
        0 <= depth <= 29,
        valid_ranges(rs, depth),
    ensures
        0 <= total_len(rs, depth) <= n_cells(depth),
        rs.len() > 0 ==> total_len(rs, depth) <= cell_hi(rs.last(), depth) - cell_lo(rs[0], depth),
    decreases rs.len(),
{
    lemma_total_len_nonneg(rs, depth);
    if rs.len() > 0 {
        lemma_range_cells(rs[0], depth);
        lemma_valid_drop_first(rs, depth);
        lemma_total_len_bound(rs.drop_first(), depth);
        lemma_range_cells(rs.last(), depth);
        if rs.len() > 1 {
            assert(rs.drop_first()[0] == rs[1]);
            assert(rs.drop_first().last() == rs.last());
            assert(rs[0].1 < rs[1].0);
            lemma_range_cells(rs[1], depth);
            lemma_width_pos(depth);
            lemma_aligned_div_lt(rs[0].1 as int, rs[1].0 as int, cell_width(depth));
        }
    }
}

/// Any contiguous selection of a valid range set is valid.
pub proof fn lemma_valid_ranges_take(rs: Seq<(u64, u64)>, depth: int, i: int)
    requires
        valid_ranges(rs, depth),
        0 <= i <= rs.len(),
    ensures
        valid_ranges(rs.take(i), depth),
        valid_ranges(rs.skip(i), depth),
{
    assert(forall|j: int| 0 <= j < i ==> #[trigger] rs.take(i)[j] == rs[j]);
    assert(forall|j: int| 0 <= j < rs.len() - i ==> #[trigger] rs.skip(i)[j] == rs[j + i]);
}

/// Appending one range to a prefix appends its run to the labels.
pub proof fn lemma_labels_take_succ(rs: Seq<(u64, u64)>, depth: int, i: int)
    requires
        0 <= i < rs.len(),
    ensures
        labels_of(rs.take(i + 1), depth) == labels_of(rs.take(i), depth) + label_run(
            rs[i],
            depth,
        ),
{
    let pre = rs.take(i + 1);
    lemma_labels_split(pre, depth, i);
    assert(pre.take(i) =~= rs.take(i));
    assert(pre.skip(i) =~= seq![rs[i]]);
    let single = seq![rs[i]];
    assert(single.len() == 1 && single[0] == rs[i]);
    assert(single.drop_first() =~= Seq::<(u64, u64)>::empty());
    assert(labels_of(Seq::<(u64, u64)>::empty(), depth) == Seq::<u64>::empty());
    assert(labels_of(single, depth) == label_run(rs[i], depth) + Seq::<u64>::empty());
    assert(label_run(rs[i], depth) + Seq::<u64>::empty() =~= label_run(rs[i], depth));
}

/// The canonical extent of a valid range divided by the width is its cell
/// count.
pub proof fn lemma_range_len_div(r: (u64, u64), depth: int)
    requires
        0 <= depth <= 29,
        valid_range(r, depth),
    ensures
        (r.1 - r.0) as int / cell_width(depth) == range_len(r, depth),
{
    let w = cell_width(depth);
    lemma_width_pos(depth);
    lemma_range_cells(r, depth);
    assert((r.1 - r.0) as int == range_len(r, depth) * w) by (nonlinear_arith)
        requires
            cell_lo(r, depth) * w == r.0 as int && cell_hi(r, depth) * w == r.1 as int
                && range_len(r, depth) == cell_hi(r, depth) - cell_lo(r, depth),
    ;
    vstd::arithmetic::div_mod::lemma_div_by_multiple(range_len(r, depth), w);
}

/// The cell count at any depth stays within the canonical domain.
pub proof fn lemma_n_cells_bound(depth: int)
    requires
        0 <= depth <= 29,
    ensures
        1 <= n_cells(depth) <= domain_end(),
{
    lemma_cells_times_width(depth);
    lemma_width_pos(depth);
    lemma_pow2_pos((2 * depth) as nat);
    assert(n_cells(depth) <= n_cells(depth) * cell_width(depth)) by (nonlinear_arith)
        requires
            n_cells(depth) >= 1 && cell_width(depth) >= 1,
    ;
}

/// A label is in the flattened sequence exactly when the set covers the
/// cell's first canonical identifier; labels never reach past the cell
/// count.
pub proof fn lemma_labels_iff_point(rs: Seq<(u64, u64)>, depth: int, c: u64)
    requires
        0 <= depth <= 29,
        valid_ranges(rs, depth),
    ensures
        labels_of(rs, depth).contains(c) <==> ((c as int) < n_cells(depth) && covers_point(
            rs,
            c as int * cell_width(depth),
        )),
{
    lemma_labels_membership(rs, depth, c);
    if (c as int) < n_cells(depth) {
        lemma_covers_cell_point(rs, depth, c as int);
    } else {
        if covers_cell(rs, depth, c as int) {
            let i = choose|i: int|
                0 <= i < rs.len() && cell_lo(#[trigger] rs[i], depth) <= c as int && (c as int)
                    < cell_hi(rs[i], depth);
            lemma_range_cells(rs[i], depth);
        }
    }
}

/// A label is in the flattened sequence exactly when some range covers its
/// cell.
pub proof fn lemma_labels_membership(rs: Seq<(u64, u64)>, depth: int, c: u64)
    requires
        0 <= depth <= 29,
        valid_ranges(rs, depth),
    ensures
        labels_of(rs, depth).contains(c) <==> covers_cell(rs, depth, c as int),
    decreases rs.len(),
{
    lemma_labels_len(rs, depth);
    if rs.len() > 0 {
        lemma_range_cells(rs[0], depth);
        lemma_valid_drop_first(rs, depth);
        lemma_labels_membership(rs.drop_first(), depth, c);
        lemma_labels_len(rs.drop_first(), depth);
        lemma_total_len_nonneg(rs.drop_first(), depth);
        let run = label_run(rs[0], depth);
        let rest = labels_of(rs.drop_first(), depth);
        let all = labels_of(rs, depth);
        assert(forall|q: int| run.len() <= q < all.len() ==> all[q] == rest[q - run.len()]);
        assert(forall|q: int| 0 <= q < run.len() ==> all[q] == run[q]);
        // run membership is exactly coverage by the first range
        if cell_lo(rs[0], depth) <= c as int && (c as int) < cell_hi(rs[0], depth) {
            assert(run[c as int - cell_lo(rs[0], depth)] == c);
            assert(all.contains(c)) by {
                assert(all[c as int - cell_lo(rs[0], depth)] == c);
            }
        }
        if rest.contains(c) {
            let q = choose|q: int| 0 <= q < rest.len() && rest[q] == c;
            assert(all[q + run.len()] == c);
        }
        if all.contains(c) {
            let q = choose|q: int| 0 <= q < all.len() && all[q] == c;
            if q < run.len() {
                assert(covers_cell(rs, depth, c as int)) by {
                    assert(cell_lo(rs[0], depth) <= c as int && (c as int) < cell_hi(rs[0], depth));
                }
            } else {
                assert(rest[q - run.len()] == c);
                assert(covers_cell(rs.drop_first(), depth, c as int));
                let i = choose|i: int|
                    0 <= i < rs.drop_first().len() && cell_lo(
                        #[trigger] rs.drop_first()[i],
                        depth,
                    ) <= c as int && (c as int) < cell_hi(rs.drop_first()[i], depth);
                assert(rs.drop_first()[i] == rs[i + 1]);
                assert(covers_cell(rs, depth, c as int));
            }
        }
        if covers_cell(rs, depth, c as int) {
            let i = choose|i: int|
                0 <= i < rs.len() && cell_lo(#[trigger] rs[i], depth) <= c as int && (c as int)
                    < cell_hi(rs[i], depth);
            if i > 0 {
                assert(rs.drop_first()[i - 1] == rs[i]);
                assert(covers_cell(rs.drop_first(), depth, c as int));
            }
        }
    }
}

/// Covering a cell and covering its first canonical identifier agree.
pub proof fn lemma_covers_cell_point(rs: Seq<(u64, u64)>, depth: int, c: int)
    requires
        0 <= depth <= 29,
        valid_ranges(rs, depth),
        0 <= c < n_cells(depth),
    ensures
        covers_cell(rs, depth, c) <==> covers_point(rs, c * cell_width(depth)),
{
    let w = cell_width(depth);
    lemma_width_pos(depth);
    if covers_cell(rs, depth, c) {
        let i = choose|i: int|
            0 <= i < rs.len() && cell_lo(#[trigger] rs[i], depth) <= c && c < cell_hi(rs[i], depth);
        lemma_range_cells(rs[i], depth);
        assert(cell_lo(rs[i], depth) * w <= c * w < cell_hi(rs[i], depth) * w) by (nonlinear_arith)
            requires
                w >= 1 && cell_lo(rs[i], depth) <= c < cell_hi(rs[i], depth),
        ;
        assert(rs[i].0 <= c * w < rs[i].1);
    }
    if covers_point(rs, c * w) {
        let i = choose|i: int|
            0 <= i < rs.len() && (#[trigger] rs[i]).0 <= c * w && c * w < rs[i].1;
        lemma_range_cells(rs[i], depth);
        assert(cell_lo(rs[i], depth) <= c < cell_hi(rs[i], depth)) by (nonlinear_arith)
            requires
                w >= 1 && cell_lo(rs[i], depth) * w <= c * w < cell_hi(rs[i], depth) * w,
        ;
    }
}

} // verus!
