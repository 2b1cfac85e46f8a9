//! The range-compressed index over HEALPix cell ids.
//!
//! A [`RangeMOCIndex`] owns a resolution (`depth`, 0 to 29) and an interval
//! set over the canonical depth-29 identifier space.  Cells can be addressed
//! by position (their rank in the ascending enumeration of all covered cell
//! ids) or by label (the cell id itself); region coverages are translated
//! into position slices.

use crate::errors::IndexingError;
use crate::interval_set::{
    moc_depth, moc_depth_of, moc_empty, moc_from_fixed_depth_cells, moc_from_ranges,
    moc_from_state, moc_full_domain, moc_intersection, moc_ranges_seq, moc_ranges_vec,
    moc_to_state, moc_union, moc_wf, restores_state, state_text_of, IntervalSet,
};
use crate::range_model::{
    cell_hi, cell_lo, cell_position, cell_width, clamp0, clip_hi_bound, clip_lo_bound,
    covers_cell, covers_point, domain_end, label_run, labels_of, lemma_aligned_div_le,
    lemma_aligned_div_lt, lemma_cell_position, lemma_cell_position_at, lemma_cells_times_width,
    lemma_clips_empty, lemma_labels_iff_point, lemma_labels_len, lemma_labels_lower_bound,
    lemma_labels_membership, lemma_labels_sorted, lemma_labels_take_succ, lemma_locate_at,
    lemma_n_cells_bound, lemma_offset_at_succ, lemma_range_cells, lemma_range_len_div,
    lemma_ranges_ordered, lemma_slice_clips, lemma_total_len_bound, lemma_total_len_nonneg, lemma_valid_drop_first,
    lemma_valid_ranges_take, lemma_width_pos, n_cells, offset_at, range_len, slice_clips,
    total_len, valid_range, valid_ranges,
};
use crate::slice_objects::{CellIdSlice, ConcreteSlice, MultiConcreteSlice, PositionalSlice};
use vstd::prelude::*;

verus! {

/// Width of one cell at `depth`, in canonical identifiers: `4^(29 - depth)`.
fn cell_width_exec(depth: u8) -> (r: u64)
    requires
        depth <= 29,
    ensures
        r as int == cell_width(depth as int),
        r >= 1,
{
    let shift: u64 = 2 * ((29 - depth) as u64);
    proof {
        vstd::arithmetic::power2::lemma2_to64();
        vstd::arithmetic::power2::lemma2_to64_rest();
        vstd::arithmetic::power2::lemma_pow2_strictly_increases((2 * (29 - depth as int)) as nat, 64);
        vstd::bits::lemma_u64_shl_is_mul(1u64, shift);
    }
    1u64 << shift
}

/// Number of cells at `depth`: `12 * 4^depth`.
pub(crate) fn n_cells_exec(depth: u8) -> (r: u64)
    requires
        depth <= 29,
    ensures
        r as int == n_cells(depth as int),
{
    let shift: u64 = 2 * (depth as u64);
    proof {
        vstd::arithmetic::power2::lemma2_to64();
        vstd::arithmetic::power2::lemma2_to64_rest();
        if depth < 29 {
            vstd::arithmetic::power2::lemma_pow2_strictly_increases(
                (2 * depth as int) as nat,
                58,
            );
        }
        vstd::bits::lemma_u64_shl_is_mul(12u64, shift);
    }
    12u64 << shift
}

/// Total number of cells at `depth` covered by a valid range list.
fn range_total(rs: &Vec<(u64, u64)>, depth: u8) -> (r: u64)
    requires
        depth <= 29,
        valid_ranges(rs@, depth as int),
    ensures
        r as int == total_len(rs@, depth as int),
{
    let w = cell_width_exec(depth);
    let n = rs.len();
    let mut acc: u64 = 0;
    let mut i: usize = 0;
    proof {
        assert(rs@.take(0) =~= Seq::<(u64, u64)>::empty());
    }
    while i < n
        invariant
            n == rs@.len(),
            0 <= i <= n,
            depth <= 29,
            valid_ranges(rs@, depth as int),
            w as int == cell_width(depth as int),
            w >= 1,
            acc as int == total_len(rs@.take(i as int), depth as int),
        decreases n - i,
    {
        let rg = rs[i];
        proof {
            lemma_range_cells(rs@[i as int], depth as int);
            lemma_range_len_div(rs@[i as int], depth as int);
            lemma_offset_at_succ(rs@, depth as int, i as int);
            lemma_valid_ranges_take(rs@, depth as int, i + 1 as int);
            lemma_total_len_bound(rs@.take(i + 1 as int), depth as int);
            lemma_n_cells_bound(depth as int);
        }
        let len_i = (rg.1 - rg.0) / w;
        acc = acc + len_i;
        i = i + 1;
    }
    proof {
        assert(rs@.take(n as int) =~= rs@);
    }
    acc
}

/// Flatten a valid range list into the ascending cell ids it covers.
fn flatten_ranges(rs: &Vec<(u64, u64)>, depth: u8) -> (out: Vec<u64>)
    requires
        depth <= 29,
        valid_ranges(rs@, depth as int),
    ensures
        out@ == labels_of(rs@, depth as int),
{
    let w = cell_width_exec(depth);
    let n = rs.len();
    let mut out: Vec<u64> = Vec::new();
    let mut i: usize = 0;
    proof {
        assert(rs@.take(0) =~= Seq::<(u64, u64)>::empty());
    }
    while i < n
        invariant
            n == rs@.len(),
            0 <= i <= n,
            depth <= 29,
            valid_ranges(rs@, depth as int),
            w as int == cell_width(depth as int),
            w >= 1,
            out@ == labels_of(rs@.take(i as int), depth as int),
        decreases n - i,
    {
        let rg = rs[i];
        proof {
            lemma_range_cells(rs@[i as int], depth as int);
            lemma_n_cells_bound(depth as int);
        }
        let a = rg.0 / w;
        let b = rg.1 / w;
        let ghost run = label_run(rs@[i as int], depth as int);
        let ghost out_before = out@;
        let mut c = a;
        while c < b
            invariant
                a <= c <= b,
                a as int == cell_lo(rs@[i as int], depth as int),
                b as int == cell_hi(rs@[i as int], depth as int),
                run == label_run(rs@[i as int], depth as int),
                out@ == out_before + run.take(c - a),
            decreases b - c,
        {
            proof {
                assert(run.take(c - a + 1) =~= run.take(c - a).push(c));
            }
            out.push(c);
            c = c + 1;
        }
        proof {
            assert(run.take(b - a) =~= run);
            lemma_labels_take_succ(rs@, depth as int, i as int);
        }
        i = i + 1;
    }
    proof {
        assert(rs@.take(n as int) =~= rs@);
    }
    out
}

/// Walk a valid range list once, keeping the part of each range that
/// overlaps positions `[start, stop)` of the flattened enumeration.
#[verifier::rlimit(100)]
fn slice_ranges(rs: &Vec<(u64, u64)>, depth: u8, start: u64, stop: u64) -> (out: Vec<(u64, u64)>)
    requires
        depth <= 29,
        valid_ranges(rs@, depth as int),
    ensures
        out@ == slice_clips(rs@, depth as int, start as int, stop as int),
{
    let ghost d = depth as int;
    let w = cell_width_exec(depth);
    let n = rs.len();
    let mut out: Vec<(u64, u64)> = Vec::new();
    let mut lo = start;
    let mut hi = stop;
    let mut i: usize = 0;
    proof {
        assert(rs@.skip(0) =~= rs@);
        assert(out@ + slice_clips(rs@, d, start as int, stop as int) =~= slice_clips(
            rs@,
            d,
            start as int,
            stop as int,
        ));
    }
    while i < n && hi != 0
        invariant
            n == rs@.len(),
            0 <= i <= n,
            depth <= 29,
            d == depth as int,
            valid_ranges(rs@, d),
            w as int == cell_width(d),
            w >= 1,
            slice_clips(rs@, d, start as int, stop as int) == out@ + slice_clips(
                rs@.skip(i as int),
                d,
                lo as int,
                hi as int,
            ),
        decreases n - i,
    {
        let ghost tail = rs@.skip(i as int);
        proof {
            lemma_valid_ranges_take(rs@, d, i as int);
            assert(tail[0] == rs@[i as int]);
            lemma_range_cells(rs@[i as int], d);
            lemma_n_cells_bound(d);
            lemma_cells_times_width(d);
        }
        let rg = rs[i];
        let a = rg.0 / w;
        let b = rg.1 / w;
        let n0 = b - a;
        proof {
            assert(a as int == cell_lo(rs@[i as int], d) && b as int == cell_hi(
                rs@[i as int],
                d,
            ));
            assert(n0 as int == range_len(rs@[i as int], d));
        }
        if lo < n0 && hi > lo {
            let hi1 = if hi < n0 {
                hi
            } else {
                n0
            };
            proof {
                assert((a + lo) as int * w <= (a + hi1) as int * w && (a + hi1) as int * w <= b
                    as int * w && 0 <= a as int * w) by (nonlinear_arith)
                    requires
                        w >= 1 && 0 <= a as int && a as int + lo as int <= a as int + hi1 as int
                            <= b as int,
                ;
                assert(b as int * w == rs@[i as int].1 as int);
            }
            let clip = ((a + lo) * w, (a + hi1) * w);
            out.push(clip);
        }
        let lo_next = if lo > n0 {
            lo - n0
        } else {
            0
        };
        let hi_next = if hi > n0 {
            hi - n0
        } else {
            0
        };
        proof {
            assert(tail.drop_first() =~= rs@.skip(i + 1 as int));
            assert(clamp0(lo as int - n0 as int) == lo_next as int);
            assert(clamp0(hi as int - n0 as int) == hi_next as int);
            assert(slice_clips(rs@, d, start as int, stop as int) == out@ + slice_clips(
                rs@.skip(i + 1 as int),
                d,
                lo_next as int,
                hi_next as int,
            )) by {
                if lo < n0 && hi > lo {
                    assert(slice_clips(tail, d, lo as int, hi as int).drop_first() =~= slice_clips(
                        rs@.skip(i + 1 as int),
                        d,
                        lo_next as int,
                        hi_next as int,
                    ));
                }
            }
        }
        lo = lo_next;
        hi = hi_next;
        i = i + 1;
    }
    proof {
        if i == n {
            assert(rs@.skip(n as int) =~= Seq::<(u64, u64)>::empty());
            assert(out@ + Seq::<(u64, u64)>::empty() =~= out@);
        } else {
            lemma_clips_empty(rs@.skip(i as int), d, lo as int, hi as int);
            assert(out@ + Seq::<(u64, u64)>::empty() =~= out@);
        }
    }
    out
}

/// Cumulative position offsets: entry `i` is the position of the first cell
/// of range `i`; the final entry is the total cell count.
fn range_offsets(rs: &Vec<(u64, u64)>, depth: u8) -> (out: Vec<u64>)
    requires
        depth <= 29,
        valid_ranges(rs@, depth as int),
    ensures
        out@.len() == rs@.len() + 1,
        forall|i: int|
            0 <= i <= rs@.len() ==> (#[trigger] out@[i]) as int == offset_at(
                rs@,
                depth as int,
                i,
            ),
{
    let ghost d = depth as int;
    let w = cell_width_exec(depth);
    let n = rs.len();
    let mut out: Vec<u64> = Vec::new();
    let mut acc: u64 = 0;
    let mut i: usize = 0;
    proof {
        assert(rs@.take(0) =~= Seq::<(u64, u64)>::empty());
    }
    out.push(0);
    while i < n
        invariant
            n == rs@.len(),
            0 <= i <= n,
            depth <= 29,
            d == depth as int,
            valid_ranges(rs@, d),
            w as int == cell_width(d),
            w >= 1,
            acc as int == offset_at(rs@, d, i as int),
            out@.len() == i + 1,
            forall|k: int| 0 <= k <= i as int ==> (#[trigger] out@[k]) as int == offset_at(rs@, d, k),
        decreases n - i,
    {
        let rg = rs[i];
        proof {
            lemma_range_cells(rs@[i as int], d);
            lemma_range_len_div(rs@[i as int], d);
            lemma_offset_at_succ(rs@, d, i as int);
            lemma_valid_ranges_take(rs@, d, i + 1 as int);
            lemma_total_len_bound(rs@.take(i + 1 as int), d);
            lemma_n_cells_bound(d);
        }
        let len_i = (rg.1 - rg.0) / w;
        acc = acc + len_i;
        out.push(acc);
        i = i + 1;
    }
    proof {
        assert(rs@.take(n as int) =~= rs@);
    }
    out
}

/// Translate each position into the cell id at that rank.
///
/// Fails with `OutOfRange` exactly when some position is at or beyond the
/// total cell count.
#[verifier::rlimit(100)]
fn lookup_positions(rs: &Vec<(u64, u64)>, depth: u8, positions: &Vec<u64>) -> (r: Result<
    Vec<u64>,
    IndexingError,
>)
    requires
        depth <= 29,
        valid_ranges(rs@, depth as int),
    ensures
        r is Ok <==> (forall|j: int|
            0 <= j < positions@.len() ==> ((#[trigger] positions@[j]) as int) < total_len(
                rs@,
                depth as int,
            )),
        r is Err ==> r == Err::<Vec<u64>, IndexingError>(IndexingError::OutOfRange),
        r matches Ok(ls) ==> ls@.len() == positions@.len() && (forall|j: int|
            0 <= j < positions@.len() ==> (#[trigger] ls@[j]) == labels_of(
                rs@,
                depth as int,
            )[positions@[j] as int]),
{
    let ghost d = depth as int;
    let total = range_total(rs, depth);
    let offsets = range_offsets(rs, depth);
    let w = cell_width_exec(depth);
    let n = rs.len();
    let m = positions.len();
    let mut ls: Vec<u64> = Vec::new();
    let mut j: usize = 0;
    while j < m
        invariant
            m == positions@.len(),
            n == rs@.len(),
            0 <= j <= m,
            depth <= 29,
            d == depth as int,
            valid_ranges(rs@, d),
            w as int == cell_width(d),
            w >= 1,
            total as int == total_len(rs@, d),
            offsets@.len() == n + 1,
            forall|k: int| 0 <= k <= n ==> (#[trigger] offsets@[k]) as int == offset_at(rs@, d, k),
            ls@.len() == j,
            forall|k: int|
                0 <= k < j as int ==> (#[trigger] positions@[k]) < total,
            forall|k: int|
                0 <= k < j as int ==> (#[trigger] ls@[k]) == labels_of(rs@, d)[positions@[k] as int],
        decreases m - j,
    {
        let p = positions[j];
        if p >= total {
            return Err(IndexingError::OutOfRange);
        }
        let mut i: usize = 0;
        proof {
            assert(rs@.take(0) =~= Seq::<(u64, u64)>::empty());
            if n == 0 {
                assert(total_len(rs@, d) == 0) by {
                    assert(rs@ =~= Seq::<(u64, u64)>::empty());
                }
            }
        }
        while i < n - 1 && offsets[i + 1] <= p
            invariant
                n == rs@.len(),
                n >= 1,
                0 <= i < n,
                depth <= 29,
                d == depth as int,
                valid_ranges(rs@, d),
                offsets@.len() == n + 1,
                forall|k: int|
                    0 <= k <= n ==> (#[trigger] offsets@[k]) as int == offset_at(rs@, d, k),
                p < total,
                total as int == total_len(rs@, d),
                offset_at(rs@, d, i as int) <= p as int,
            decreases n - i,
        {
            i = i + 1;
        }
        proof {
            lemma_offset_at_succ(rs@, d, i as int);
            if i < n - 1 {
                assert((p as int) < offset_at(rs@, d, i as int + 1));
            } else {
                assert(i == n - 1);
                assert(offset_at(rs@, d, n as int) == total_len(rs@, d)) by {
                    assert(rs@.take(n as int) =~= rs@);
                }
                assert((p as int) < offset_at(rs@, d, i as int + 1));
            }
            lemma_range_cells(rs@[i as int], d);
            lemma_locate_at(rs@, d, p as int, i as int);
            lemma_labels_lower_bound(rs@, d);
            lemma_n_cells_bound(d);
        }
        let rg = rs[i];
        let a = rg.0 / w;
        let label = a + (p - offsets[i]);
        ls.push(label);
        j = j + 1;
    }
    Ok(ls)
}

/// What a range set built from an explicit cell list contains: exactly the
/// listed cells.
proof fn lemma_from_cells_labels(rs2: Seq<(u64, u64)>, depth: int, cells: Seq<u64>)
    requires
        0 <= depth <= 29,
        valid_ranges(rs2, depth),
        forall|x: int|
            covers_point(rs2, x) <==> (0 <= x < domain_end() && cells.contains(
                ((x / cell_width(depth)) as u64),
            )),
        forall|j: int| 0 <= j < cells.len() ==> ((#[trigger] cells[j]) as int) < n_cells(depth),
    ensures
        forall|c: u64| labels_of(rs2, depth).contains(c) <==> cells.contains(c),
{
    let w = cell_width(depth);
    lemma_width_pos(depth);
    assert forall|c: u64| labels_of(rs2, depth).contains(c) <==> cells.contains(c) by {
        lemma_labels_iff_point(rs2, depth, c);
        if (c as int) < n_cells(depth) {
            lemma_cells_times_width(depth);
            assert(c as int * w < domain_end() && 0 <= c as int * w) by (nonlinear_arith)
                requires
                    (c as int) < n_cells(depth) && w >= 1 && 0 <= c as int && n_cells(depth) * w
                        == domain_end(),
            ;
            assert((c as int * w) / w == c as int) by {
                vstd::arithmetic::div_mod::lemma_div_by_multiple(c as int, w);
            }
            assert(covers_point(rs2, c as int * w) <==> cells.contains(c));
        } else {
            if cells.contains(c) {
                let k = choose|k: int| 0 <= k < cells.len() && cells[k] == c;
                assert(((cells[k]) as int) < n_cells(depth));
            }
        }
    }
}

/// A positional indexer: either a slice of positions or an explicit array
/// of positions.
pub enum PositionIndexer {
    Slice(PositionalSlice),
    Array(Vec<u64>),
}

/// A label indexer: either a slice of cell ids or an explicit array of cell
/// ids, both at the index's own depth.
pub enum LabelIndexer {
    Slice(CellIdSlice),
    Array(Vec<u64>),
}

/// The resolved position addressing returned by `sel`, mirroring the shape
/// of the label indexer it resolves.
#[derive(Debug, Clone, PartialEq, Eq)]
pub enum ResolvedPositions {
    Slice(ConcreteSlice),
    Array(Vec<u64>),
}

/// The start label a label slice uses against one range: an absent bound
/// defaults to the range's first cell.
pub open spec fn sel_start_of(s: CellIdSlice, r: (u64, u64), depth: int) -> int {
    match s.start {
        Some(v) => v as int,
        None => cell_lo(r, depth),
    }
}

/// The stop label (inclusive) a label slice uses against one range: an
/// absent bound defaults to the range's last cell.
pub open spec fn sel_stop_of(s: CellIdSlice, r: (u64, u64), depth: int) -> int {
    match s.stop {
        Some(v) => v as int,
        None => cell_hi(r, depth) - 1,
    }
}

/// The step a label slice resolves to: an absent step counts as one.
pub open spec fn sel_step_of(s: CellIdSlice) -> int {
    match s.step {
        Some(v) => v as int,
        None => 1,
    }
}

/// Whether the label slice overlaps the range's cell span.
pub open spec fn sel_overlap_cond(s: CellIdSlice, r: (u64, u64), depth: int) -> bool {
    sel_start_of(s, r, depth) < cell_hi(r, depth) && sel_stop_of(s, r, depth) >= cell_lo(r, depth)
}

/// First cell of the overlapping label span.
pub open spec fn sel_clip_lo(s: CellIdSlice, r: (u64, u64), depth: int) -> int {
    if sel_start_of(s, r, depth) > cell_lo(r, depth) {
        sel_start_of(s, r, depth)
    } else {
        cell_lo(r, depth)
    }
}

/// One past the last cell of the overlapping label span.
pub open spec fn sel_clip_hi(s: CellIdSlice, r: (u64, u64), depth: int) -> int {
    if sel_stop_of(s, r, depth) + 1 < cell_hi(r, depth) {
        sel_stop_of(s, r, depth) + 1
    } else {
        cell_hi(r, depth)
    }
}

/// The position slice one overlapping range contributes, given that range's
/// position offset.
pub open spec fn sel_pos_slice(s: CellIdSlice, r: (u64, u64), depth: int, o: int) -> ConcreteSlice {
    ConcreteSlice {
        start: (clamp0(sel_start_of(s, r, depth) - cell_lo(r, depth)) + o) as i64,
        stop: ((sel_clip_hi(s, r, depth) - cell_lo(r, depth)) + o) as i64,
        step: sel_step_of(s) as i64,
    }
}

/// The canonical sub-range one overlapping range contributes.
pub open spec fn sel_clipped_range(s: CellIdSlice, r: (u64, u64), depth: int) -> (u64, u64) {
    (
        ((sel_clip_lo(s, r, depth) * cell_width(depth)) as u64),
        ((sel_clip_hi(s, r, depth) * cell_width(depth)) as u64),
    )
}

/// Position slices of all ranges overlapping the label slice, in order,
/// starting from position offset `o`.
pub open spec fn sel_slices(rs: Seq<(u64, u64)>, depth: int, s: CellIdSlice, o: int) -> Seq<
    ConcreteSlice,
>
    decreases rs.len(),
{
    if rs.len() == 0 {
        Seq::empty()
    } else {
        let rest = sel_slices(rs.drop_first(), depth, s, o + range_len(rs[0], depth));
        if sel_overlap_cond(s, rs[0], depth) {
            seq![sel_pos_slice(s, rs[0], depth, o)] + rest
        } else {
            rest
        }
    }
}

/// Canonical sub-ranges of all ranges overlapping the label slice, in order.
pub open spec fn sel_ranges(rs: Seq<(u64, u64)>, depth: int, s: CellIdSlice) -> Seq<(u64, u64)>
    decreases rs.len(),
{
    if rs.len() == 0 {
        Seq::empty()
    } else {
        let rest = sel_ranges(rs.drop_first(), depth, s);
        if sel_overlap_cond(s, rs[0], depth) {
            seq![sel_clipped_range(s, rs[0], depth)] + rest
        } else {
            rest
        }
    }
}

/// Whether a region range covers at least one cell of an index range,
/// compared over whole cell spans at `depth`: ranges that merely share a
/// boundary do not overlap.
pub open spec fn region_cond(ro: (u64, u64), r: (u64, u64), depth: int) -> bool {
    cell_lo(ro, depth) < cell_hi(r, depth) && cell_hi(ro, depth) > cell_lo(r, depth)
}

/// The position slice one index range contributes to a region range, given
/// that index range's position offset.
pub open spec fn region_pos_slice(ro: (u64, u64), r: (u64, u64), depth: int, o: int) -> ConcreteSlice {
    let a = cell_lo(r, depth);
    let b = cell_hi(r, depth);
    let eo = cell_hi(ro, depth);
    ConcreteSlice {
        start: (clamp0(cell_lo(ro, depth) - a) + o) as i64,
        stop: (clamp0(
            (if eo < b {
                eo
            } else {
                b
            }) - a,
        ) + o) as i64,
        step: 1,
    }
}

/// Position slices of all index ranges a region range overlaps, in order.
pub open spec fn region_slices(rs: Seq<(u64, u64)>, depth: int, ro: (u64, u64), o: int) -> Seq<
    ConcreteSlice,
>
    decreases rs.len(),
{
    if rs.len() == 0 {
        Seq::empty()
    } else {
        let rest = region_slices(rs.drop_first(), depth, ro, o + range_len(rs[0], depth));
        if region_cond(ro, rs[0], depth) {
            seq![region_pos_slice(ro, rs[0], depth, o)] + rest
        } else {
            rest
        }
    }
}

/// The join of a non-empty slice list: first start to last stop.
pub open spec fn joined_of(svs: Seq<ConcreteSlice>) -> ConcreteSlice {
    ConcreteSlice { start: svs[0].start, stop: svs.last().stop, step: svs[0].step }
}

/// The multi-slice a region query produces: one joined slice per region
/// range that overlaps the index, in region order; fails when a region
/// range's spans do not join.
pub open spec fn query_multi(rs: Seq<(u64, u64)>, depth: int, region: Seq<(u64, u64)>) -> Result<
    Seq<ConcreteSlice>,
    (),
>
    decreases region.len(),
{
    if region.len() == 0 {
        Ok(Seq::empty())
    } else {
        let svs = region_slices(rs, depth, region[0], 0);
        let rest = query_multi(rs, depth, region.drop_first());
        if svs.len() == 0 {
            rest
        } else if !crate::slice_objects::joinable_spec(svs) {
            Err(())
        } else {
            match rest {
                Ok(t) => Ok(seq![joined_of(svs)] + t),
                Err(e) => Err(e),
            }
        }
    }
}

/// Label-slice bounds in order: when both bounds are given the start must
/// not exceed the stop.
pub open spec fn sel_bounds_ok(s: CellIdSlice) -> bool {
    match (s.start, s.stop) {
        (Some(a), Some(b)) => a <= b,
        _ => true,
    }
}

/// A label slice the index accepts: bounds in order and a step that is
/// neither zero nor beyond the signed 64-bit range.
pub open spec fn sel_wellformed(s: CellIdSlice) -> bool {
    &&& sel_bounds_ok(s)
    &&& (s.step matches Some(v) ==> 1 <= v <= 0x7fff_ffff_ffff_ffffu64)
}

/// The clipped ranges of a label slice form a valid range set again.
proof fn lemma_sel_ranges_valid(rs: Seq<(u64, u64)>, depth: int, s: CellIdSlice)
    requires
        0 <= depth <= 29,
        valid_ranges(rs, depth),
        sel_bounds_ok(s),
    ensures
        valid_ranges(sel_ranges(rs, depth, s), depth),
        sel_ranges(rs, depth, s).len() > 0 ==> rs.len() > 0 && (sel_ranges(rs, depth, s)[0].0
            as int) >= rs[0].0 as int,
    decreases rs.len(),
{
    if rs.len() > 0 {
        let w = cell_width(depth);
        lemma_width_pos(depth);
        lemma_range_cells(rs[0], depth);
        lemma_valid_drop_first(rs, depth);
        lemma_sel_ranges_valid(rs.drop_first(), depth, s);
        let out = sel_ranges(rs, depth, s);
        let rest = sel_ranges(rs.drop_first(), depth, s);
        if rs.len() > 1 {
            assert(rs.drop_first()[0] == rs[1]);
            assert(rs[0].1 < rs[1].0);
        }
        if sel_overlap_cond(s, rs[0], depth) {
            let a = cell_lo(rs[0], depth);
            let b = cell_hi(rs[0], depth);
            let cl = sel_clip_lo(s, rs[0], depth);
            let ch = sel_clip_hi(s, rs[0], depth);
            let head = sel_clipped_range(s, rs[0], depth);
            assert(a <= cl < ch <= b);
            lemma_cells_times_width(depth);
            assert(a * w <= cl * w && cl * w < ch * w && ch * w <= b * w) by (nonlinear_arith)
                requires
                    w >= 1 && 0 <= a <= cl < ch <= b,
            ;
            assert(b * w == rs[0].1 as int);
            assert(cl * w % w == 0 && ch * w % w == 0) by {
                lemma_mod_multiples_basic_pair(cl, ch, w);
            }
            assert(valid_range(head, depth));
            assert(forall|j: int| 0 <= j < rest.len() ==> out[j + 1] == rest[j]);
            assert(valid_ranges(out, depth)) by {
                assert(forall|j: int|
                    0 <= j < out.len() ==> valid_range(#[trigger] out[j], depth));
                assert(forall|j: int|
                    0 <= j && j + 1 < out.len() ==> (#[trigger] out[j]).1 < out[j + 1].0);
            }
        }
    }
}

/// Both products of the width are aligned.
proof fn lemma_mod_multiples_basic_pair(x: int, y: int, w: int)
    requires
        w > 0,
    ensures
        x * w % w == 0,
        y * w % w == 0,
{
    vstd::arithmetic::div_mod::lemma_mod_multiples_basic(x, w);
    vstd::arithmetic::div_mod::lemma_mod_multiples_basic(y, w);
}

/// Find the range whose cell span contains the cell `c`.
fn find_cell_range(rs: &Vec<(u64, u64)>, depth: u8, c: u64) -> (r: Option<usize>)
    requires
        depth <= 29,
        valid_ranges(rs@, depth as int),
    ensures
        r matches Some(i) ==> 0 <= i < rs@.len() && cell_lo(rs@[i as int], depth as int) <= c as int
            && (c as int) < cell_hi(rs@[i as int], depth as int),
        r is None ==> !covers_cell(rs@, depth as int, c as int),
{
    let ghost d = depth as int;
    let w = cell_width_exec(depth);
    let n = rs.len();
    let mut i: usize = 0;
    while i < n
        invariant
            n == rs@.len(),
            0 <= i <= n,
            depth <= 29,
            d == depth as int,
            valid_ranges(rs@, d),
            w as int == cell_width(d),
            w >= 1,
            forall|k: int|
                0 <= k < i as int ==> !(cell_lo(#[trigger] rs@[k], d) <= c as int && (c as int)
                    < cell_hi(rs@[k], d)),
        decreases n - i,
    {
        let rg = rs[i];
        let a = rg.0 / w;
        let b = rg.1 / w;
        if c >= a && c < b {
            return Some(i);
        }
        i = i + 1;
    }
    None
}

/// What well-formedness gives a caller: the depth is a valid resolution,
/// the ranges form a valid range set at it, the enumeration is the
/// flattening of the ranges and is as long as the size, and the size is
/// bounded by the cell count at the depth.
///
/// These facts live in closed definitions; this lemma exports them so that
/// callers can, for example, chain `export_state` into `import_state`, or
/// pass `size()` into a signed slice bound.
pub proof fn lemma_index_wf(idx: RangeMOCIndex)
    requires
        idx.wf(),
    ensures
        0 <= idx.depth_spec() <= 29,
        valid_ranges(idx.ranges_spec(), idx.depth_spec()),
        idx.labels_spec() == labels_of(idx.ranges_spec(), idx.depth_spec()),
        idx.size_spec() == total_len(idx.ranges_spec(), idx.depth_spec()),
        idx.labels_spec().len() == idx.size_spec(),
        0 <= idx.size_spec() <= n_cells(idx.depth_spec()),
        n_cells(idx.depth_spec()) <= 0x3000_0000_0000_0000,
        idx.size_spec() == 0 ==> idx.ranges_spec() == Seq::<(u64, u64)>::empty(),
{
    lemma_labels_len(idx.ranges_spec(), idx.depth_spec());
    lemma_total_len_bound(idx.ranges_spec(), idx.depth_spec());
    lemma_n_cells_bound(idx.depth_spec());
    if idx.size_spec() == 0 && idx.ranges_spec().len() > 0 {
        lemma_range_cells(idx.ranges_spec()[0], idx.depth_spec());
        lemma_total_len_nonneg(idx.ranges_spec(), idx.depth_spec());
        assert(false);
    }
    if idx.size_spec() == 0 {
        assert(idx.ranges_spec() =~= Seq::<(u64, u64)>::empty());
    }
}

/// Law of canonical form, lifted to indexes: at one depth, coverage
/// determines the index — equal coverage means identical ranges, labels
/// and size.  With the contracts of `query` and `intersection` this makes
/// a query's sub-index exactly the delegated intersection of the index
/// with the region.
pub proof fn lemma_cover_determines_index(a: RangeMOCIndex, b: RangeMOCIndex)
    requires
        a.wf(),
        b.wf(),
        b.depth_spec() == a.depth_spec(),
        forall|x: int|
            covers_point(a.ranges_spec(), x) <==> covers_point(b.ranges_spec(), x),
    ensures
        a.ranges_spec() == b.ranges_spec(),
        a.labels_spec() == b.labels_spec(),
        a.size_spec() == b.size_spec(),
{
    crate::range_model::lemma_covers_determine_ranges(
        a.ranges_spec(),
        b.ranges_spec(),
        a.depth_spec(),
    );
}

/// Law: the cell ids of a well-formed index are strictly ascending —
/// sorted and free of duplicates.  Together with the contract of
/// `from_cell_ids` (the enumeration contains exactly the given cells) this
/// pins down construction from a cell list completely.
pub proof fn lemma_index_labels_sorted(idx: RangeMOCIndex)
    requires
        idx.wf(),
    ensures
        forall|p: int, q: int|
            0 <= p < q < idx.labels_spec().len() ==> (idx.labels_spec()[p] as int) < (
            idx.labels_spec()[q] as int),
{
    lemma_labels_sorted(idx.ranges_spec(), idx.depth_spec());
}

/// Law: at equal depths, the union of two indexes enumerates exactly the
/// cells enumerated by either input (sorted and unique by
/// [`lemma_index_labels_sorted`]).
pub proof fn lemma_union_labels(a: RangeMOCIndex, b: RangeMOCIndex, u: RangeMOCIndex)
    requires
        a.wf(),
        b.wf(),
        u.wf(),
        b.depth_spec() == a.depth_spec(),
        u.depth_spec() == a.depth_spec(),
        forall|x: int|
            covers_point(u.ranges_spec(), x) <==> (covers_point(a.ranges_spec(), x)
                || covers_point(b.ranges_spec(), x)),
    ensures
        forall|c: u64|
            u.labels_spec().contains(c) <==> (a.labels_spec().contains(c)
                || b.labels_spec().contains(c)),
{
    let d = a.depth_spec();
    assert forall|c: u64|
        u.labels_spec().contains(c) <==> (a.labels_spec().contains(c) || b.labels_spec().contains(
            c,
        )) by {
        lemma_labels_iff_point(a.ranges_spec(), d, c);
        lemma_labels_iff_point(b.ranges_spec(), d, c);
        lemma_labels_iff_point(u.ranges_spec(), d, c);
    }
}

/// Law: at equal depths, the intersection of two indexes enumerates exactly
/// the cells enumerated by both inputs.
pub proof fn lemma_intersection_labels(a: RangeMOCIndex, b: RangeMOCIndex, v: RangeMOCIndex)
    requires
        a.wf(),
        b.wf(),
        v.wf(),
        b.depth_spec() == a.depth_spec(),
        v.depth_spec() == a.depth_spec(),
        forall|x: int|
            covers_point(v.ranges_spec(), x) <==> (covers_point(a.ranges_spec(), x)
                && covers_point(b.ranges_spec(), x)),
    ensures
        forall|c: u64|
            v.labels_spec().contains(c) <==> (a.labels_spec().contains(c)
                && b.labels_spec().contains(c)),
{
    let d = a.depth_spec();
    assert forall|c: u64|
        v.labels_spec().contains(c) <==> (a.labels_spec().contains(c) && b.labels_spec().contains(
            c,
        )) by {
        lemma_labels_iff_point(a.ranges_spec(), d, c);
        lemma_labels_iff_point(b.ranges_spec(), d, c);
        lemma_labels_iff_point(v.ranges_spec(), d, c);
    }
}

/// Law: positional and label addressing invert each other.  The cell id at
/// position `p` is covered by the index, and looking that cell id up again
/// yields position `p`; with the contracts of `isel` and `sel` this is the
/// round trip between the two addressings.
pub proof fn lemma_position_label_inverse(idx: RangeMOCIndex, p: int)
    requires
        idx.wf(),
        0 <= p < idx.size_spec(),
    ensures
        idx.labels_spec().len() == idx.size_spec(),
        covers_cell(idx.ranges_spec(), idx.depth_spec(), idx.labels_spec()[p] as int),
        cell_position(idx.ranges_spec(), idx.depth_spec(), idx.labels_spec()[p] as int) == p,
{
    let rs = idx.ranges_spec();
    let d = idx.depth_spec();
    lemma_labels_len(rs, d);
    let c = idx.labels_spec()[p];
    assert(idx.labels_spec().contains(c));
    lemma_labels_membership(rs, d, c);
    lemma_cell_position(rs, d, c as int);
    lemma_labels_sorted(rs, d);
    let q = cell_position(rs, d, c as int);
    if q < p {
        assert((idx.labels_spec()[q] as int) < (idx.labels_spec()[p] as int));
    }
    if p < q {
        assert((idx.labels_spec()[p] as int) < (idx.labels_spec()[q] as int));
    }
}

/// Law: an empty index has no cells and selects nothing: its size is zero,
/// every positional walk over it emits nothing, and no cell is covered (so
/// every label lookup fails).
pub proof fn lemma_empty_index(idx: RangeMOCIndex)
    requires
        idx.wf(),
        idx.ranges_spec() == Seq::<(u64, u64)>::empty(),
    ensures
        idx.size_spec() == 0,
        idx.labels_spec() == Seq::<u64>::empty(),
        forall|c: int| !covers_cell(idx.ranges_spec(), idx.depth_spec(), c),
        forall|lo: int, hi: int|
            slice_clips(idx.ranges_spec(), idx.depth_spec(), lo, hi) == Seq::<(u64, u64)>::empty(),
{
}

/// Law of idempotence: selecting every position, `[0, size)`, reproduces
/// the index's ranges exactly; with the contract of `isel`, slicing an
/// index with the full slice returns an equal index.
pub proof fn lemma_isel_full_identity(idx: RangeMOCIndex)
    requires
        idx.wf(),
    ensures
        slice_clips(idx.ranges_spec(), idx.depth_spec(), 0, idx.size_spec()) == idx.ranges_spec(),
{
    crate::range_model::lemma_full_clips_identity(idx.ranges_spec(), idx.depth_spec());
}

/// A non-empty overlap list means some range passes the overlap test.
proof fn lemma_sel_overlap_exists(rs: Seq<(u64, u64)>, depth: int, s: CellIdSlice, o: int)
    ensures
        sel_slices(rs, depth, s, o).len() > 0 <==> (exists|m: int|
            0 <= m < rs.len() && sel_overlap_cond(s, #[trigger] rs[m], depth)),
    decreases rs.len(),
{
    if rs.len() > 0 {
        lemma_sel_overlap_exists(rs.drop_first(), depth, s, o + range_len(rs[0], depth));
        if sel_slices(rs, depth, s, o).len() > 0 && !sel_overlap_cond(s, rs[0], depth) {
            let m = choose|m: int|
                0 <= m < rs.drop_first().len() && sel_overlap_cond(
                    s,
                    #[trigger] rs.drop_first()[m],
                    depth,
                );
            assert(rs.drop_first()[m] == rs[m + 1]);
        }
        if exists|m: int| 0 <= m < rs.len() && sel_overlap_cond(s, #[trigger] rs[m], depth) {
            let m = choose|m: int|
                0 <= m < rs.len() && sel_overlap_cond(s, #[trigger] rs[m], depth);
            if m > 0 {
                assert(rs.drop_first()[m - 1] == rs[m]);
            }
        }
    }
}

/// Law: within one index the position spans a label slice selects are
/// always mutually contiguous, because any two overlapped ranges enclose
/// only overlapped ranges and meet exactly at their shared offset.  With
/// the contract of `sel`, a well-formed label slice over a single index
/// can therefore never fail with `NotContiguous`: spans that do not join
/// can only arise from slices of different indexes.
#[verifier::rlimit(100)]
pub proof fn lemma_sel_spans_contiguous(rs: Seq<(u64, u64)>, depth: int, s: CellIdSlice, o: int)
    requires
        0 <= depth <= 29,
        valid_ranges(rs, depth),
    ensures
        crate::slice_objects::joinable_spec(sel_slices(rs, depth, s, o)),
    decreases rs.len(),
{
    if rs.len() > 0 {
        let w = cell_width(depth);
        lemma_width_pos(depth);
        let n0 = range_len(rs[0], depth);
        let a0 = cell_lo(rs[0], depth);
        let b0 = cell_hi(rs[0], depth);
        lemma_range_cells(rs[0], depth);
        lemma_valid_drop_first(rs, depth);
        lemma_sel_spans_contiguous(rs.drop_first(), depth, s, o + n0);
        let rest = rs.drop_first();
        let restsl = sel_slices(rest, depth, s, o + n0);
        if sel_overlap_cond(s, rs[0], depth) && restsl.len() > 0 {
            let slice0 = sel_pos_slice(s, rs[0], depth, o);
            let combined = sel_slices(rs, depth, s, o);
            assert(combined == seq![slice0] + restsl);
            lemma_sel_overlap_exists(rest, depth, s, o + n0);
            let m = choose|m: int|
                0 <= m < rest.len() && sel_overlap_cond(s, #[trigger] rest[m], depth);
            lemma_range_cells(rest[0], depth);
            lemma_range_cells(rest[m], depth);
            assert(rest[0] == rs[1] && rs[0].1 < rs[1].0);
            lemma_aligned_div_lt(rs[0].1 as int, rs[1].0 as int, w);
            // the next range overlaps as well: its cells start past the
            // slice's start and no later than the witness's cells
            assert(sel_overlap_cond(s, rest[0], depth)) by {
                if m > 0 {
                    lemma_ranges_ordered(rest, depth, 0, m);
                    lemma_aligned_div_le(rest[0].0 as int, rest[m].0 as int, w);
                }
            }
            // the first span ends exactly where the next begins
            assert(sel_clip_hi(s, rs[0], depth) == b0);
            assert(slice0.stop as int == ((n0 + o) as i64) as int);
            assert(restsl[0] == sel_pos_slice(s, rest[0], depth, o + n0));
            assert(clamp0(sel_start_of(s, rest[0], depth) - cell_lo(rest[0], depth)) == 0);
            assert(slice0.stop == restsl[0].start);
            assert(slice0.step == restsl[0].step);
            assert(crate::slice_objects::joinable_spec(combined)) by {
                assert(forall|j: int| 0 <= j < restsl.len() ==> combined[j + 1] == restsl[j]);
                assert(forall|j: int|
                    1 <= j && j + 1 < combined.len() ==> ((#[trigger] combined[j]).step
                        == combined[j + 1].step && combined[j].stop == combined[j + 1].start));
                assert(combined[0].stop == combined[1].start && combined[0].step == combined[
                1].step);
            }
        } else {
            if sel_overlap_cond(s, rs[0], depth) {
                assert(sel_slices(rs, depth, s, o) =~= seq![sel_pos_slice(s, rs[0], depth, o)]);
            }
        }
    }
}

impl CellIdSlice {
    /// The overlap of this label slice with one range: the position span
    /// (relative to the range's position `offset`) and the clipped
    /// canonical sub-range, or nothing when the slice misses the range.
    fn overlap(&self, range: (u64, u64), depth: u8, offset: u64) -> (r: Option<
        (ConcreteSlice, (u64, u64)),
    >)
        requires
            depth <= 29,
            valid_range(range, depth as int),
            sel_wellformed(*self),
            offset as int + range_len(range, depth as int) <= 0x3000_0000_0000_0000,
        ensures
            r is Some <==> sel_overlap_cond(*self, range, depth as int),
            r matches Some(pair) ==> pair.0 == sel_pos_slice(
                *self,
                range,
                depth as int,
                offset as int,
            ) && pair.1 == sel_clipped_range(*self, range, depth as int),
    {
        let ghost d = depth as int;
        let w = cell_width_exec(depth);
        proof {
            lemma_range_cells(range, d);
            lemma_n_cells_bound(d);
            lemma_cells_times_width(d);
        }
        let step_i: i64 = match self.step {
            Some(v) => v as i64,
            None => 1,
        };
        let a = range.0 / w;
        let b = range.1 / w;
        let st: u64 = match self.start {
            Some(v) => v,
            None => a,
        };
        let sp: u64 = match self.stop {
            Some(v) => v,
            None => b - 1,
        };
        if st < b && sp >= a {
            let ch = if sp <= b - 1 {
                sp + 1
            } else {
                b
            };
            let cl = if st > a {
                st
            } else {
                a
            };
            let ps = (if st > a {
                st - a
            } else {
                0
            }) + offset;
            let pe = (ch - a) + offset;
            proof {
                assert(cl as int == sel_clip_lo(*self, range, d));
                assert(ch as int == sel_clip_hi(*self, range, d));
                assert((cl as int) < (ch as int));
                assert(cl as int * w < ch as int * w && ch as int * w <= b as int * w && 0 <= cl
                    as int * w) by (nonlinear_arith)
                    requires
                        w >= 1 && 0 <= (cl as int) && (cl as int) < (ch as int) && (ch as int)
                            <= (b as int),
                ;
                assert(b as int * w == range.1 as int);
                assert((((cl as int * w) as u64), ((ch as int * w) as u64)) == sel_clipped_range(
                    *self,
                    range,
                    d,
                ));
            }
            Some((ConcreteSlice { start: ps as i64, stop: pe as i64, step: step_i }, (
                cl * w,
                ch * w,
            )))
        } else {
            None
        }
    }
}

/// A label slice that brackets positions `[lo, hi)` of the enumeration:
/// both bounds given, the start at most the first selected label (and past
/// the label before it), the stop at least the last selected label (and
/// short of the label after it).
pub open spec fn window_bounds_ok(
    rs: Seq<(u64, u64)>,
    depth: int,
    s: CellIdSlice,
    lo: int,
    hi: int,
) -> bool {
    match (s.start, s.stop) {
        (Some(c0), Some(c1)) => {
            &&& c0 as int <= labels_of(rs, depth)[lo] as int
            &&& (lo > 0 ==> c0 as int > labels_of(rs, depth)[lo - 1] as int)
            &&& c1 as int >= labels_of(rs, depth)[hi - 1] as int
            &&& (hi < total_len(rs, depth) ==> (c1 as int) < labels_of(rs, depth)[hi] as int)
        },
        _ => false,
    }
}

/// Ranges wholly past the stop label contribute nothing.
proof fn lemma_sel_none(rs: Seq<(u64, u64)>, depth: int, s: CellIdSlice, o: int, c1: int)
    requires
        0 <= depth <= 29,
        valid_ranges(rs, depth),
        s.stop matches Some(v) && v as int == c1,
        rs.len() > 0 ==> c1 < cell_lo(rs[0], depth),
    ensures
        sel_slices(rs, depth, s, o) == Seq::<ConcreteSlice>::empty(),
        sel_ranges(rs, depth, s) == Seq::<(u64, u64)>::empty(),
    decreases rs.len(),
{
    if rs.len() > 0 {
        lemma_range_cells(rs[0], depth);
        lemma_valid_drop_first(rs, depth);
        assert(!sel_overlap_cond(s, rs[0], depth));
        if rs.len() > 1 {
            lemma_width_pos(depth);
            lemma_range_cells(rs[1], depth);
            lemma_aligned_div_le(rs[0].1 as int, rs[1].0 as int, cell_width(depth));
            assert(rs.drop_first()[0] == rs[1]);
        }
        lemma_sel_none(rs.drop_first(), depth, s, o + range_len(rs[0], depth), c1);
    }
}

/// The core of the label/position round trip: a label slice that brackets
/// positions `[lo, hi)` overlaps exactly the ranges of that positional
/// window, its position slices form one contiguous chain from `lo + o` to
/// `hi + o`, and the clipped ranges are exactly the positional clips.
#[verifier::rlimit(100)]
proof fn lemma_sel_window(rs: Seq<(u64, u64)>, depth: int, s: CellIdSlice, lo: int, hi: int, o: int)
    requires
        0 <= depth <= 29,
        valid_ranges(rs, depth),
        0 <= lo < hi <= total_len(rs, depth),
        window_bounds_ok(rs, depth, s, lo, hi),
        0 <= sel_step_of(s) <= 0x7fff_ffff_ffff_ffff,
        0 <= o,
        o + total_len(rs, depth) <= 0x7fff_ffff_ffff_ffff,
    ensures
        sel_slices(rs, depth, s, o).len() > 0,
        crate::slice_objects::joinable_spec(sel_slices(rs, depth, s, o)),
        (sel_slices(rs, depth, s, o)[0]).start as int == lo + o,
        (sel_slices(rs, depth, s, o).last()).stop as int == hi + o,
        forall|j: int|
            0 <= j < sel_slices(rs, depth, s, o).len() ==> (#[trigger] sel_slices(
                rs,
                depth,
                s,
                o,
            )[j]).step as int == sel_step_of(s),
        sel_ranges(rs, depth, s) == slice_clips(rs, depth, lo, hi),
    decreases rs.len(),
{
    let w = cell_width(depth);
    lemma_width_pos(depth);
    lemma_labels_len(rs, depth);
    lemma_total_len_nonneg(rs, depth);
    assert(rs.len() > 0);
    let n0 = range_len(rs[0], depth);
    let a = cell_lo(rs[0], depth);
    let b = cell_hi(rs[0], depth);
    lemma_range_cells(rs[0], depth);
    lemma_valid_drop_first(rs, depth);
    lemma_labels_len(rs.drop_first(), depth);
    lemma_total_len_nonneg(rs.drop_first(), depth);
    let run = label_run(rs[0], depth);
    let lrest = labels_of(rs.drop_first(), depth);
    let all = labels_of(rs, depth);
    let t = total_len(rs, depth);
    let t1 = total_len(rs.drop_first(), depth);
    assert(forall|j: int| 0 <= j < n0 ==> all[j] == run[j]);
    assert(forall|j: int| n0 <= j < all.len() ==> all[j] == lrest[j - n0]);
    let c0: int = match s.start {
        Some(v) => v as int,
        None => 0,
    };
    let c1: int = match s.stop {
        Some(v) => v as int,
        None => 0,
    };
    if rs.len() > 1 {
        lemma_range_cells(rs[1], depth);
        lemma_aligned_div_lt(rs[0].1 as int, rs[1].0 as int, w);
        assert(rs.drop_first()[0] == rs[1]);
        assert(lrest[0] == cell_lo(rs[1], depth)) by {
            assert(lrest[0] == label_run(rs[1], depth)[0]);
        }
        lemma_labels_lower_bound(rs.drop_first(), depth);
    }
    if lo >= n0 {
        // the whole window lies beyond the first range
        assert(rs.len() > 1);
        assert(all[lo - 1] >= b - 1) by {
            if lo - 1 >= n0 {
                assert(all[lo - 1] == lrest[lo - 1 - n0]);
                assert((lrest[lo - 1 - n0] as int) >= cell_lo(rs[1], depth));
            } else {
                assert(all[lo - 1] == run[n0 - 1]);
            }
        }
        assert(c0 >= b);
        assert(!sel_overlap_cond(s, rs[0], depth));
        assert(window_bounds_ok(rs.drop_first(), depth, s, lo - n0, hi - n0));
        lemma_sel_window(rs.drop_first(), depth, s, lo - n0, hi - n0, o + n0);
        assert(sel_slices(rs, depth, s, o) == sel_slices(rs.drop_first(), depth, s, o + n0));
        assert(sel_ranges(rs, depth, s) == sel_ranges(rs.drop_first(), depth, s));
        assert(clamp0(lo - n0) == lo - n0 && clamp0(hi - n0) == hi - n0);
        assert(slice_clips(rs, depth, lo, hi) == slice_clips(
            rs.drop_first(),
            depth,
            lo - n0,
            hi - n0,
        ));
    } else {
        // the window starts inside the first range
        assert(c0 <= a + lo) by {
            assert(all[lo] == run[lo]);
        }
        assert(lo > 0 ==> c0 == a + lo) by {
            if lo > 0 {
                assert(all[lo - 1] == run[lo - 1]);
            }
        }
        assert(sel_overlap_cond(s, rs[0], depth)) by {
            assert(c0 <= a + lo < b);
            assert(all[hi - 1] >= a) by {
                if hi - 1 < n0 {
                    assert(all[hi - 1] == run[hi - 1]);
                } else {
                    assert(all[hi - 1] == lrest[hi - 1 - n0]);
                }
            }
        }
        let cl = sel_clip_lo(s, rs[0], depth);
        let ch = sel_clip_hi(s, rs[0], depth);
        assert(cl == a + lo);
        let slice0 = sel_pos_slice(s, rs[0], depth, o);
        assert(clamp0(c0 - a) == lo);
        assert(0 <= lo + o <= 0x7fff_ffff_ffff_ffff && 0 <= hi + o <= 0x7fff_ffff_ffff_ffff && 0
            <= n0 + o <= 0x7fff_ffff_ffff_ffff);
        if hi <= n0 {
            // the window also ends inside the first range
            assert(ch == a + hi) by {
                if hi < n0 {
                    assert(all[hi] == run[hi]);
                    assert(all[hi - 1] == run[hi - 1]);
                    assert(c1 == a + hi - 1);
                } else {
                    assert(all[hi - 1] == run[n0 - 1]);
                    assert(c1 >= b - 1);
                    if hi < t {
                        assert(all[hi] == lrest[0]);
                    }
                }
            }
            assert(slice0.start as int == lo + o && slice0.stop as int == hi + o && slice0.step
                as int == sel_step_of(s));
            if rs.len() > 1 {
                assert(hi < t) by {
                    lemma_range_cells(rs[1], depth);
                    lemma_total_len_nonneg(rs.drop_first().drop_first(), depth);
                    lemma_valid_drop_first(rs.drop_first(), depth);
                }
                assert(c1 < cell_lo(rs[1], depth)) by {
                    if hi == n0 {
                        assert(all[hi] == lrest[0]);
                    } else {
                        assert(all[hi] == run[hi]);
                        assert(c1 < a + hi <= b - 1 + 1);
                    }
                }
                lemma_sel_none(rs.drop_first(), depth, s, o + n0, c1);
            } else {
                assert(sel_slices(rs.drop_first(), depth, s, o + n0) =~= Seq::<
                    ConcreteSlice,
                >::empty());
                assert(sel_ranges(rs.drop_first(), depth, s) =~= Seq::<(u64, u64)>::empty());
            }
            assert(sel_slices(rs, depth, s, o) =~= seq![slice0]);
            assert(sel_ranges(rs, depth, s) =~= seq![sel_clipped_range(s, rs[0], depth)]);
            // the positional walk matches
            assert(clamp0(lo - n0) == 0 && clamp0(hi - n0) == 0);
            lemma_clips_empty(rs.drop_first(), depth, 0, 0);
            assert(slice_clips(rs, depth, lo, hi) =~= seq![
                (((a + lo) * w) as u64, ((a + hi) * w) as u64),
            ]);
            assert(sel_clipped_range(s, rs[0], depth) == (
                ((a + lo) * w) as u64,
                ((a + hi) * w) as u64,
            ));
            assert(sel_ranges(rs, depth, s) =~= slice_clips(rs, depth, lo, hi));
        } else {
            // the window continues past the first range
            assert(rs.len() > 1);
            assert(all[hi - 1] >= cell_lo(rs[1], depth)) by {
                assert(all[hi - 1] == lrest[hi - 1 - n0]);
            }
            assert(c1 >= b);
            assert(ch == b);
            assert(slice0.start as int == lo + o && slice0.stop as int == n0 + o && slice0.step
                as int == sel_step_of(s));
            assert(window_bounds_ok(rs.drop_first(), depth, s, 0, hi - n0)) by {
                assert(c0 <= a + lo < b <= cell_lo(rs[1], depth));
                assert(lrest[0] == cell_lo(rs[1], depth));
                assert(all[hi - 1] == lrest[hi - 1 - n0]);
                if hi < t {
                    assert(all[hi] == lrest[hi - n0]);
                }
            }
            lemma_sel_window(rs.drop_first(), depth, s, 0, hi - n0, o + n0);
            let restsl = sel_slices(rs.drop_first(), depth, s, o + n0);
            let combined = sel_slices(rs, depth, s, o);
            assert(combined == seq![slice0] + restsl);
            assert(combined.len() == 1 + restsl.len());
            assert(forall|j: int| 0 <= j < restsl.len() ==> combined[j + 1] == restsl[j]);
            assert(combined[0] == slice0);
            assert((restsl[0]).start as int == 0 + (o + n0));
            assert(crate::slice_objects::joinable_spec(combined)) by {
                assert(forall|j: int|
                    1 <= j && j + 1 < combined.len() ==> ((#[trigger] combined[j]).step
                        == combined[j + 1].step && combined[j].stop == combined[j + 1].start))
                    by {
                    assert(forall|j: int|
                        0 <= j && j + 1 < restsl.len() ==> ((#[trigger] restsl[j]).step == restsl[j
                            + 1].step && restsl[j].stop == restsl[j + 1].start));
                }
                assert(combined[0].stop == combined[1].start);
                assert(combined[0].step as int == sel_step_of(s) && combined[1].step as int
                    == sel_step_of(s));
            }
            assert(combined.last() == restsl.last());
            assert((combined.last()).stop as int == (hi - n0) + (o + n0));
            // the clipped ranges match the positional walk
            assert(clamp0(lo - n0) == 0 && clamp0(hi - n0) == hi - n0);
            let hi1: int = if hi < n0 {
                hi
            } else {
                n0
            };
            assert(hi1 == n0);
            assert(sel_clipped_range(s, rs[0], depth) == (
                ((a + lo) * w) as u64,
                ((a + n0) * w) as u64,
            ));
            assert(sel_ranges(rs, depth, s) =~= slice_clips(rs, depth, lo, hi)) by {
                assert(sel_ranges(rs, depth, s) == seq![sel_clipped_range(s, rs[0], depth)]
                    + sel_ranges(rs.drop_first(), depth, s));
                assert(slice_clips(rs, depth, lo, hi) == seq![
                    (((a + lo) * w) as u64, ((a + hi1) * w) as u64),
                ] + slice_clips(rs.drop_first(), depth, 0, hi - n0));
            }
        }
    }
}

/// Law of the round trip between positional and label slicing: for any
/// positional window `[lo, hi)` of a well-formed index, the label slice
/// from the first to the last selected cell id is well-formed, selects at
/// least one range, joins into exactly the concrete slice `(lo, hi, 1)`,
/// and selects exactly the ranges of the positional walk — so `sel` over
/// the label bounds of a contiguous `isel` recovers that slice and that
/// sub-index.
pub proof fn lemma_sel_of_isel(idx: RangeMOCIndex, lo: int, hi: int)
    requires
        idx.wf(),
        0 <= lo < hi <= idx.size_spec(),
    ensures
        idx.labels_spec().len() == idx.size_spec(),
        ({
            let s = CellIdSlice {
                start: Some(idx.labels_spec()[lo]),
                stop: Some(idx.labels_spec()[hi - 1]),
                step: None,
            };
            sel_wellformed(s) && sel_slices(idx.ranges_spec(), idx.depth_spec(), s, 0).len() > 0
                && crate::slice_objects::joinable_spec(
                sel_slices(idx.ranges_spec(), idx.depth_spec(), s, 0),
            ) && joined_of(sel_slices(idx.ranges_spec(), idx.depth_spec(), s, 0))
                == (ConcreteSlice { start: lo as i64, stop: hi as i64, step: 1i64 })
                && sel_ranges(idx.ranges_spec(), idx.depth_spec(), s) == slice_clips(
                idx.ranges_spec(),
                idx.depth_spec(),
                lo,
                hi,
            )
        }),
{
    let rs = idx.ranges_spec();
    let d = idx.depth_spec();
    lemma_labels_len(rs, d);
    lemma_labels_sorted(rs, d);
    lemma_total_len_bound(rs, d);
    lemma_n_cells_bound(d);
    let s = CellIdSlice {
        start: Some(idx.labels_spec()[lo]),
        stop: Some(idx.labels_spec()[hi - 1]),
        step: None,
    };
    assert(window_bounds_ok(rs, d, s, lo, hi));
    assert(sel_wellformed(s)) by {
        if lo < hi - 1 {
            assert((idx.labels_spec()[lo] as int) < (idx.labels_spec()[hi - 1] as int));
        }
    }
    lemma_sel_window(rs, d, s, lo, hi, 0);
    let svs = sel_slices(rs, d, s, 0);
    assert(joined_of(svs) == (ConcreteSlice { start: lo as i64, stop: hi as i64, step: 1i64 })) by {
        assert((svs[0]).start as int == lo && (svs.last()).stop as int == hi && (svs[0]).step
            as int == 1);
    }
}

/// Check executably that a range list is well-formed at `depth`.
fn validate_ranges(rs: &Vec<(u64, u64)>, depth: u8) -> (r: bool)
    requires
        depth <= 29,
    ensures
        r <==> valid_ranges(rs@, depth as int),
{
    let w = cell_width_exec(depth);
    let n = rs.len();
    let mut i: usize = 0;
    while i < n
        invariant
            n == rs@.len(),
            0 <= i <= n,
            depth <= 29,
            w as int == cell_width(depth as int),
            w >= 1,
            forall|k: int| 0 <= k < i as int ==> valid_range(#[trigger] rs@[k], depth as int),
            forall|k: int|
                0 <= k && k + 1 < i as int ==> (#[trigger] rs@[k]).1 < rs@[k + 1].0,
        decreases n - i,
    {
        let rg = rs[i];
        if !(rg.0 < rg.1 && rg.1 <= 0x3000_0000_0000_0000u64 && rg.0 % w == 0 && rg.1 % w == 0) {
            return false;
        }
        if i > 0 {
            if !(rs[i - 1].1 < rg.0) {
                return false;
            }
        }
        i = i + 1;
    }
    true
}

/// Range-based index of HEALPix cell ids at a fixed resolution.
///
/// Cell ids are compressed by run-length encoding into sorted, disjoint,
/// maximally merged ranges over the canonical depth-29 identifier space.
/// Only the "nested" numbering scheme is supported.
#[derive(Debug)]
pub struct RangeMOCIndex {
    moc: IntervalSet,
}

impl RangeMOCIndex {
    /// The resolution of the index.
    pub closed spec fn depth_spec(self) -> int {
        moc_depth_of(self.moc) as int
    }

    /// The ranges of the underlying interval set.
    pub closed spec fn ranges_spec(self) -> Seq<(u64, u64)> {
        moc_ranges_seq(self.moc)
    }

    /// Well-formedness: depth in range and the interval set valid at it.
    pub closed spec fn wf(self) -> bool {
        moc_wf(self.moc)
    }

    /// The ascending cell ids the index contains.
    pub closed spec fn labels_spec(self) -> Seq<u64> {
        labels_of(self.ranges_spec(), self.depth_spec())
    }

    /// The number of cells the index contains.
    pub closed spec fn size_spec(self) -> int {
        total_len(self.ranges_spec(), self.depth_spec())
    }

    /// Create an index covering the entire sphere at the given depth.
    pub fn full_domain(depth: u8) -> (r: RangeMOCIndex)
        requires
            depth <= 29,
        ensures
            r.wf(),
            r.depth_spec() == depth as int,
            r.ranges_spec() == seq![(0u64, 0x3000_0000_0000_0000u64)],
            r.size_spec() == n_cells(depth as int),
    {
        let moc = moc_full_domain(depth);
        proof {
            let rs = moc_ranges_seq(moc);
            let d = depth as int;
            crate::range_model::lemma_domain_end_aligned(d);
            lemma_width_pos(d);
            assert(rs[0] == (0u64, 0x3000_0000_0000_0000u64));
            assert(valid_range(rs[0], d)) by {
                vstd::arithmetic::div_mod::lemma_small_mod(0nat, cell_width(d) as nat);
            }
            assert(valid_ranges(rs, d));
            assert(rs.drop_first() =~= Seq::<(u64, u64)>::empty());
            assert(total_len(Seq::<(u64, u64)>::empty(), d) == 0);
            assert(total_len(rs, d) == range_len(rs[0], d) + total_len(rs.drop_first(), d));
            lemma_range_cells(rs[0], d);
            assert(cell_lo(rs[0], d) == 0) by {
                vstd::arithmetic::div_mod::lemma_div_of0(cell_width(d));
            }
        }
        RangeMOCIndex { moc }
    }

    /// Create an empty index at the given depth.
    pub fn create_empty(depth: u8) -> (r: RangeMOCIndex)
        requires
            depth <= 29,
        ensures
            r.wf(),
            r.depth_spec() == depth as int,
            r.ranges_spec() == Seq::<(u64, u64)>::empty(),
            r.size_spec() == 0,
            r.labels_spec() == Seq::<u64>::empty(),
    {
        let moc = moc_empty(depth);
        RangeMOCIndex { moc }
    }

    /// The depth of the index.
    pub fn depth(&self) -> (r: u8)
        ensures
            r as int == self.depth_spec(),
    {
        moc_depth(&self.moc)
    }

    /// The number of cells in the index.
    pub fn size(&self) -> (r: u64)
        requires
            self.wf(),
        ensures
            r as int == self.size_spec(),
    {
        let rs = moc_ranges_vec(&self.moc);
        let depth = moc_depth(&self.moc);
        range_total(&rs, depth)
    }

    /// The size of the stored ranges in bytes (16 bytes per range), ignoring
    /// constant overhead; saturates at the largest 64-bit value.
    pub fn nbytes(&self) -> (r: u64)
        ensures
            16 * self.ranges_spec().len() <= u64::MAX ==> r as int == 16 * self.ranges_spec().len(),
            16 * self.ranges_spec().len() > u64::MAX ==> r == u64::MAX,
    {
        let rs = moc_ranges_vec(&self.moc);
        let n = rs.len() as u64;
        if n <= u64::MAX / 16 {
            n * 16
        } else {
            u64::MAX
        }
    }

    /// The ascending cell ids contained by the index.
    pub fn cell_ids(&self) -> (r: Vec<u64>)
        requires
            self.wf(),
        ensures
            r@ == self.labels_spec(),
    {
        let rs = moc_ranges_vec(&self.moc);
        let depth = moc_depth(&self.moc);
        flatten_ranges(&rs, depth)
    }

    /// Build an index covering exactly the given cells at the given depth.
    ///
    /// The cells need not be sorted or unique; the index enumerates them in
    /// ascending order without duplicates.  Fails with `InvalidArgument`
    /// exactly when the depth exceeds 29 or a cell id is out of range for
    /// the depth.
    pub fn from_cell_ids(depth: u8, cell_ids: Vec<u64>) -> (r: Result<RangeMOCIndex, IndexingError>)
        ensures
            (depth <= 29 && (forall|j: int|
                0 <= j < cell_ids@.len() ==> (#[trigger] cell_ids@[j] as int) < n_cells(
                    depth as int,
                ))) <==> r is Ok,
            r is Err ==> r == Err::<RangeMOCIndex, IndexingError>(IndexingError::InvalidArgument),
            r matches Ok(idx) ==> idx.wf() && idx.depth_spec() == depth as int && (forall|c: u64|
                idx.labels_spec().contains(c) <==> cell_ids@.contains(c)),
    {
        if depth > 29 {
            return Err(IndexingError::InvalidArgument);
        }
        let bound = n_cells_exec(depth);
        let n = cell_ids.len();
        let mut j: usize = 0;
        while j < n
            invariant
                n == cell_ids@.len(),
                0 <= j <= n,
                bound as int == n_cells(depth as int),
                forall|k: int| 0 <= k < j as int ==> (#[trigger] cell_ids@[k]) < bound,
            decreases n - j,
        {
            if cell_ids[j] >= bound {
                return Err(IndexingError::InvalidArgument);
            }
            j = j + 1;
        }
        let moc = moc_from_fixed_depth_cells(depth, &cell_ids);
        let idx = RangeMOCIndex { moc };
        proof {
            lemma_from_cells_labels(idx.ranges_spec(), depth as int, cell_ids@);
        }
        Ok(idx)
    }

    /// Subset the index by positions.
    ///
    /// A slice is resolved against the index size and must have step one
    /// (`InvalidArgument` otherwise); the result keeps exactly the cells at
    /// the selected positions.  An explicit position array may list
    /// positions in any order and with duplicates; the result enumerates
    /// the selected cells in ascending order without duplicates, and fails
    /// with `OutOfRange` when a position is at or beyond the index size.
    pub fn isel(&self, indexer: PositionIndexer) -> (r: Result<RangeMOCIndex, IndexingError>)
        requires
            self.wf(),
        ensures
            r matches Ok(sub) ==> sub.wf() && sub.depth_spec() == self.depth_spec(),
            indexer matches PositionIndexer::Slice(s) ==> (((s.step is None || s.step == Some(
                1i64,
            )) ==> (r matches Ok(sub) && sub.ranges_spec() == slice_clips(
                self.ranges_spec(),
                self.depth_spec(),
                s.resolved_start_spec(self.size_spec()),
                s.resolved_stop_spec(self.size_spec()),
            ) && sub.labels_spec() == self.labels_spec().subrange(
                clip_lo_bound(
                    self.ranges_spec(),
                    self.depth_spec(),
                    s.resolved_start_spec(self.size_spec()),
                    s.resolved_stop_spec(self.size_spec()),
                ),
                clip_hi_bound(
                    self.ranges_spec(),
                    self.depth_spec(),
                    s.resolved_stop_spec(self.size_spec()),
                ),
            ))) && (!(s.step is None || s.step == Some(1i64)) ==> r == Err::<
                RangeMOCIndex,
                IndexingError,
            >(IndexingError::InvalidArgument))),
            indexer matches PositionIndexer::Array(ps) ==> (((forall|j: int|
                0 <= j < ps@.len() ==> ((#[trigger] ps@[j]) as int) < self.size_spec()) ==> (
            r matches Ok(sub) && (forall|c: u64|
                sub.labels_spec().contains(c) <==> (exists|j: int|
                    0 <= j < ps@.len() && self.labels_spec()[(#[trigger] ps@[j]) as int]
                        == c)))) && (!(forall|j: int|
                0 <= j < ps@.len() ==> ((#[trigger] ps@[j]) as int) < self.size_spec()) ==> r
                == Err::<RangeMOCIndex, IndexingError>(IndexingError::OutOfRange))),
    {
        let ghost d = self.depth_spec();
        match indexer {
            PositionIndexer::Slice(s) => {
                let sz = self.size();
                proof {
                    lemma_total_len_bound(self.ranges_spec(), d);
                    lemma_n_cells_bound(d);
                }
                let cs = match s.as_concrete(sz as i64) {
                    Ok(c) => c,
                    Err(e) => {
                        return Err(e);
                    },
                };
                if cs.step != 1 {
                    return Err(IndexingError::InvalidArgument);
                }
                let rs = moc_ranges_vec(&self.moc);
                let depth = moc_depth(&self.moc);
                let start_u = cs.start as u64;
                let stop_u = cs.stop as u64;
                let clips = slice_ranges(&rs, depth, start_u, stop_u);
                proof {
                    lemma_slice_clips(rs@, d, start_u as int, stop_u as int);
                }
                let sub = RangeMOCIndex { moc: moc_from_ranges(depth, &clips) };
                Ok(sub)
            },
            PositionIndexer::Array(ps) => {
                let rs = moc_ranges_vec(&self.moc);
                let depth = moc_depth(&self.moc);
                let ls = match lookup_positions(&rs, depth, &ps) {
                    Ok(v) => v,
                    Err(e) => {
                        return Err(e);
                    },
                };
                proof {
                    if rs@.len() > 0 {
                        lemma_labels_lower_bound(rs@, d);
                    }
                    lemma_labels_len(rs@, d);
                    assert(forall|j: int|
                        0 <= j < ls@.len() ==> ((#[trigger] ls@[j]) as int) < n_cells(d));
                }
                let moc2 = moc_from_fixed_depth_cells(depth, &ls);
                let sub = RangeMOCIndex { moc: moc2 };
                proof {
                    lemma_from_cells_labels(sub.ranges_spec(), d, ls@);
                    assert forall|c: u64|
                        sub.labels_spec().contains(c) <==> (exists|j: int|
                            0 <= j < ps@.len() && self.labels_spec()[(#[trigger] ps@[j]) as int]
                                == c) by {
                        if ls@.contains(c) {
                            let k = choose|k: int| 0 <= k < ls@.len() && ls@[k] == c;
                            assert(self.labels_spec()[(ps@[k]) as int] == c);
                        }
                        if exists|j: int|
                            0 <= j < ps@.len() && self.labels_spec()[(#[trigger] ps@[j]) as int]
                                == c {
                            let j = choose|j: int|
                                0 <= j < ps@.len() && self.labels_spec()[(#[trigger] ps@[j]) as int]
                                    == c;
                            assert(ls@[j] == c);
                        }
                    }
                }
                Ok(sub)
            },
        }
    }

    /// Subset the index by labels, returning both the resolved position
    /// addressing and the sub-index.
    ///
    /// A label slice (bounds inclusive, both optional) selects the cells of
    /// every range it overlaps; the per-range position spans must join into
    /// one contiguous slice (`NotContiguous` otherwise, `InvalidArgument`
    /// when nothing overlaps or the slice is malformed).  A label array
    /// yields the position of each label in input order, failing with
    /// `KeyNotFound` on the first label no range contains; its sub-index
    /// enumerates the matched labels in ascending order without duplicates,
    /// which need not match the input order.
    /// Label-slice lookup; the slice half of [`RangeMOCIndex::sel`].
    #[verifier::rlimit(100)]
    fn sel_slice_impl(&self, s: CellIdSlice) -> (r: Result<
        (ConcreteSlice, RangeMOCIndex),
        IndexingError,
    >)
        requires
            self.wf(),
        ensures
            r matches Ok(pair) ==> pair.1.wf() && pair.1.depth_spec() == self.depth_spec(),
            !sel_wellformed(s) ==> r == Err::<(ConcreteSlice, RangeMOCIndex), IndexingError>(
                IndexingError::InvalidArgument,
            ),
            (sel_wellformed(s) && sel_slices(self.ranges_spec(), self.depth_spec(), s, 0).len()
                == 0) ==> r == Err::<(ConcreteSlice, RangeMOCIndex), IndexingError>(
                IndexingError::InvalidArgument,
            ),
            (sel_wellformed(s) && sel_slices(self.ranges_spec(), self.depth_spec(), s, 0).len() > 0
                && crate::slice_objects::joinable_spec(
                sel_slices(self.ranges_spec(), self.depth_spec(), s, 0),
            )) ==> (r matches Ok(pair) && pair.0 == (ConcreteSlice {
                start: sel_slices(self.ranges_spec(), self.depth_spec(), s, 0)[0].start,
                stop: sel_slices(self.ranges_spec(), self.depth_spec(), s, 0).last().stop,
                step: sel_slices(self.ranges_spec(), self.depth_spec(), s, 0)[0].step,
            }) && pair.1.ranges_spec() == sel_ranges(self.ranges_spec(), self.depth_spec(), s)),
            (sel_wellformed(s) && sel_slices(self.ranges_spec(), self.depth_spec(), s, 0).len() > 0
                && !crate::slice_objects::joinable_spec(
                sel_slices(self.ranges_spec(), self.depth_spec(), s, 0),
            )) ==> r == Err::<(ConcreteSlice, RangeMOCIndex), IndexingError>(
                IndexingError::NotContiguous,
            ),
    {
        let ghost d = self.depth_spec();
        match s.step {
            Some(v) => {
                if v == 0 || v > 0x7fff_ffff_ffff_ffffu64 {
                    return Err(IndexingError::InvalidArgument);
                }
            },
            None => {},
        }
        match (s.start, s.stop) {
            (Some(a), Some(b)) => {
                if a > b {
                    return Err(IndexingError::InvalidArgument);
                }
            },
            _ => {},
        }
        let rs = moc_ranges_vec(&self.moc);
        let depth = moc_depth(&self.moc);
        let w = cell_width_exec(depth);
        let n = rs.len();
        let mut slices: Vec<ConcreteSlice> = Vec::new();
        let mut rvec: Vec<(u64, u64)> = Vec::new();
        let mut o: u64 = 0;
        let mut i: usize = 0;
        proof {
            assert(rs@.skip(0) =~= rs@);
            assert(rs@.take(0) =~= Seq::<(u64, u64)>::empty());
            assert(slices@ + sel_slices(rs@, d, s, 0) =~= sel_slices(rs@, d, s, 0));
            assert(rvec@ + sel_ranges(rs@, d, s) =~= sel_ranges(rs@, d, s));
        }
        while i < n
            invariant
                n == rs@.len(),
                0 <= i <= n,
                depth as int == d,
                0 <= d <= 29,
                self.wf(),
                rs@ == self.ranges_spec(),
                valid_ranges(rs@, d),
                w as int == cell_width(d),
                w >= 1,
                sel_wellformed(s),
                d == self.depth_spec(),
                o as int == offset_at(rs@, d, i as int),
                sel_slices(rs@, d, s, 0) == slices@ + sel_slices(
                    rs@.skip(i as int),
                    d,
                    s,
                    o as int,
                ),
                sel_ranges(rs@, d, s) == rvec@ + sel_ranges(rs@.skip(i as int), d, s),
            decreases n - i,
        {
            let ghost tail = rs@.skip(i as int);
            proof {
                assert(tail[0] == rs@[i as int]);
                lemma_range_cells(rs@[i as int], d);
                lemma_n_cells_bound(d);
                lemma_offset_at_succ(rs@, d, i as int);
                lemma_valid_ranges_take(rs@, d, i + 1 as int);
                lemma_total_len_bound(rs@.take(i + 1 as int), d);
            }
            let rg = rs[i];
            match s.overlap(rg, depth, o) {
                Some((cslice, crange)) => {
                    slices.push(cslice);
                    rvec.push(crange);
                },
                None => {},
            }
            proof {
                assert(tail.drop_first() =~= rs@.skip(i + 1 as int));
                if sel_overlap_cond(s, rs@[i as int], d) {
                    assert(sel_slices(tail, d, s, o as int).drop_first() =~= sel_slices(
                        rs@.skip(i + 1 as int),
                        d,
                        s,
                        o as int + range_len(rs@[i as int], d),
                    ));
                    assert(sel_ranges(tail, d, s).drop_first() =~= sel_ranges(
                        rs@.skip(i + 1 as int),
                        d,
                        s,
                    ));
                }
            }
            o = o + ((rg.1 - rg.0) / w);
            proof {
                lemma_range_len_div(rs@[i as int], d);
            }
            i = i + 1;
        }
        proof {
            assert(rs@.skip(n as int) =~= Seq::<(u64, u64)>::empty());
            assert(slices@ + Seq::<ConcreteSlice>::empty() =~= slices@);
            assert(rvec@ + Seq::<(u64, u64)>::empty() =~= rvec@);
            lemma_sel_ranges_valid(rs@, d, s);
        }
        let joined = match ConcreteSlice::join_slices(slices) {
            Ok(j) => j,
            Err(e) => {
                return Err(e);
            },
        };
        let sub = RangeMOCIndex { moc: moc_from_ranges(depth, &rvec) };
        Ok((joined, sub))
    }

    /// Label-array lookup; the array half of [`RangeMOCIndex::sel`].
    #[verifier::rlimit(100)]
    fn sel_array_impl(&self, arr: Vec<u64>) -> (r: Result<(Vec<u64>, RangeMOCIndex), IndexingError>)
        requires
            self.wf(),
        ensures
            r matches Ok(pair) ==> pair.1.wf() && pair.1.depth_spec() == self.depth_spec(),
            (forall|j: int|
                0 <= j < arr@.len() ==> covers_cell(
                    self.ranges_spec(),
                    self.depth_spec(),
                    (#[trigger] arr@[j]) as int,
                )) ==> (r matches Ok(pair) && pair.0@.len() == arr@.len() && (forall|j: int|
                0 <= j < arr@.len() ==> ((#[trigger] pair.0@[j]) as int) == cell_position(
                    self.ranges_spec(),
                    self.depth_spec(),
                    arr@[j] as int,
                )) && (forall|c: u64| pair.1.labels_spec().contains(c) <==> arr@.contains(c))),
            (exists|j: int|
                0 <= j < arr@.len() && !covers_cell(
                    self.ranges_spec(),
                    self.depth_spec(),
                    (#[trigger] arr@[j]) as int,
                )) ==> (r matches Err(e) && (exists|j: int|
                0 <= j < arr@.len() && !covers_cell(
                    self.ranges_spec(),
                    self.depth_spec(),
                    (#[trigger] arr@[j]) as int,
                ) && (forall|k: int|
                    0 <= k < j ==> covers_cell(
                        self.ranges_spec(),
                        self.depth_spec(),
                        (#[trigger] arr@[k]) as int,
                    )) && e == IndexingError::KeyNotFound(arr@[j]))),
    {
        let ghost d = self.depth_spec();
        let rs = moc_ranges_vec(&self.moc);
        let depth = moc_depth(&self.moc);
        let offsets = range_offsets(&rs, depth);
        let w = cell_width_exec(depth);
        let n = rs.len();
        let m = arr.len();
        let mut pos: Vec<u64> = Vec::new();
        let mut j: usize = 0;
        while j < m
            invariant
                m == arr@.len(),
                n == rs@.len(),
                0 <= j <= m,
                depth as int == d,
                0 <= d <= 29,
                self.wf(),
                rs@ == self.ranges_spec(),
                valid_ranges(rs@, d),
                w as int == cell_width(d),
                w >= 1,
                d == self.depth_spec(),
                offsets@.len() == n + 1,
                forall|k: int|
                    0 <= k <= n ==> (#[trigger] offsets@[k]) as int == offset_at(
                        rs@,
                        d,
                        k,
                    ),
                pos@.len() == j,
                forall|k: int|
                    0 <= k < j as int ==> covers_cell(rs@, d, (#[trigger] arr@[k]) as int),
                forall|k: int|
                    0 <= k < j as int ==> ((#[trigger] pos@[k]) as int) == cell_position(
                        rs@,
                        d,
                        arr@[k] as int,
                    ),
            decreases m - j,
        {
            let l = arr[j];
            let i = match find_cell_range(&rs, depth, l) {
                Some(i) => i,
                None => {
                    proof {
                        let jj = j as int;
                        assert(0 <= jj < arr@.len() && !covers_cell(
                            self.ranges_spec(),
                            d,
                            (arr@[jj]) as int,
                        ) && (forall|k: int|
                            0 <= k < jj ==> covers_cell(
                                self.ranges_spec(),
                                d,
                                (#[trigger] arr@[k]) as int,
                            )));
                    }
                    return Err(IndexingError::KeyNotFound(l));
                },
            };
            proof {
                lemma_range_cells(rs@[i as int], d);
                lemma_cell_position_at(rs@, d, l as int, i as int);
                lemma_offset_at_succ(rs@, d, i as int);
                lemma_valid_ranges_take(rs@, d, i + 1 as int);
                lemma_total_len_bound(rs@.take(i + 1 as int), d);
                lemma_n_cells_bound(d);
            }
            let rg = rs[i];
            let a = rg.0 / w;
            let p = offsets[i] + (l - a);
            pos.push(p);
            j = j + 1;
        }
        proof {
            assert(forall|k: int|
                0 <= k < arr@.len() ==> ((#[trigger] arr@[k]) as int) < n_cells(d)) by {
                assert forall|k: int|
                    0 <= k < arr@.len() implies ((#[trigger] arr@[k]) as int) < n_cells(
                    d,
                ) by {
                    let i = choose|i: int|
                        0 <= i < rs@.len() && cell_lo(#[trigger] rs@[i], d) <= arr@[k] as int
                            && (arr@[k] as int) < cell_hi(rs@[i], d);
                    lemma_range_cells(rs@[i], d);
                }
            }
        }
        let moc2 = moc_from_fixed_depth_cells(depth, &arr);
        let sub = RangeMOCIndex { moc: moc2 };
        proof {
            lemma_from_cells_labels(sub.ranges_spec(), d, arr@);
        }
        Ok((pos, sub))
    }

    /// Subset the index by labels, returning both the resolved position
    /// addressing and the sub-index.
    ///
    /// A label slice (bounds inclusive, both optional) selects the cells of
    /// every range it overlaps; the per-range position spans must join into
    /// one contiguous slice (`NotContiguous` otherwise, `InvalidArgument`
    /// when nothing overlaps or the slice is malformed).  A label array
    /// yields the position of each label in input order, failing with
    /// `KeyNotFound` on the first label no range contains; its sub-index
    /// enumerates the matched labels in ascending order without duplicates,
    /// which need not match the input order.
    pub fn sel(&self, indexer: LabelIndexer) -> (r: Result<
        (ResolvedPositions, RangeMOCIndex),
        IndexingError,
    >)
        requires
            self.wf(),
        ensures
            r matches Ok(pair) ==> pair.1.wf() && pair.1.depth_spec() == self.depth_spec(),
            indexer matches LabelIndexer::Slice(s) ==> ((!sel_wellformed(s) ==> r == Err::<
                (ResolvedPositions, RangeMOCIndex),
                IndexingError,
            >(IndexingError::InvalidArgument)) && ((sel_wellformed(s) && sel_slices(
                self.ranges_spec(),
                self.depth_spec(),
                s,
                0,
            ).len() == 0) ==> r == Err::<(ResolvedPositions, RangeMOCIndex), IndexingError>(
                IndexingError::InvalidArgument,
            )) && ((sel_wellformed(s) && sel_slices(self.ranges_spec(), self.depth_spec(), s, 0).len()
                > 0 && crate::slice_objects::joinable_spec(
                sel_slices(self.ranges_spec(), self.depth_spec(), s, 0),
            )) ==> (r matches Ok(pair) && pair.0 == ResolvedPositions::Slice(
                (ConcreteSlice {
                    start: sel_slices(self.ranges_spec(), self.depth_spec(), s, 0)[0].start,
                    stop: sel_slices(self.ranges_spec(), self.depth_spec(), s, 0).last().stop,
                    step: sel_slices(self.ranges_spec(), self.depth_spec(), s, 0)[0].step,
                }),
            ) && pair.1.ranges_spec() == sel_ranges(self.ranges_spec(), self.depth_spec(), s)))
                && ((sel_wellformed(s) && sel_slices(self.ranges_spec(), self.depth_spec(), s, 0).len()
                > 0 && !crate::slice_objects::joinable_spec(
                sel_slices(self.ranges_spec(), self.depth_spec(), s, 0),
            )) ==> r == Err::<(ResolvedPositions, RangeMOCIndex), IndexingError>(
                IndexingError::NotContiguous,
            ))),
            indexer matches LabelIndexer::Array(arr) ==> (((forall|j: int|
                0 <= j < arr@.len() ==> covers_cell(
                    self.ranges_spec(),
                    self.depth_spec(),
                    (#[trigger] arr@[j]) as int,
                )) ==> (r matches Ok(pair) && (pair.0 matches ResolvedPositions::Array(pos)
                && pos@.len() == arr@.len() && (forall|j: int|
                0 <= j < arr@.len() ==> ((#[trigger] pos@[j]) as int) == cell_position(
                    self.ranges_spec(),
                    self.depth_spec(),
                    arr@[j] as int,
                ))) && (forall|c: u64| pair.1.labels_spec().contains(c) <==> arr@.contains(c))))
                && ((exists|j: int|
                0 <= j < arr@.len() && !covers_cell(
                    self.ranges_spec(),
                    self.depth_spec(),
                    (#[trigger] arr@[j]) as int,
                )) ==> (r matches Err(e) && (exists|j: int|
                0 <= j < arr@.len() && !covers_cell(
                    self.ranges_spec(),
                    self.depth_spec(),
                    (#[trigger] arr@[j]) as int,
                ) && (forall|k: int|
                    0 <= k < j ==> covers_cell(
                        self.ranges_spec(),
                        self.depth_spec(),
                        (#[trigger] arr@[k]) as int,
                    )) && e == IndexingError::KeyNotFound(arr@[j]))))),
    {
        match indexer {
            LabelIndexer::Slice(s) => match self.sel_slice_impl(s) {
                Ok((cs, sub)) => Ok((ResolvedPositions::Slice(cs), sub)),
                Err(e) => Err(e),
            },
            LabelIndexer::Array(arr) => match self.sel_array_impl(arr) {
                Ok((pos, sub)) => Ok((ResolvedPositions::Array(pos), sub)),
                Err(e) => Err(e),
            },
        }
    }

    /// Compute the set union of two indexes.
    ///
    /// The result uses the maximum depth of the two inputs and covers
    /// exactly the canonical identifiers covered by either.
    pub fn union(&self, other: &RangeMOCIndex) -> (r: RangeMOCIndex)
        requires
            self.wf(),
            other.wf(),
        ensures
            r.wf(),
            r.depth_spec() == if self.depth_spec() >= other.depth_spec() {
                self.depth_spec()
            } else {
                other.depth_spec()
            },
            forall|x: int|
                covers_point(r.ranges_spec(), x) <==> (covers_point(self.ranges_spec(), x)
                    || covers_point(other.ranges_spec(), x)),
    {
        RangeMOCIndex { moc: moc_union(&self.moc, &other.moc) }
    }

    /// Compute the set intersection of two indexes.
    ///
    /// The result uses the maximum depth of the two inputs and covers
    /// exactly the canonical identifiers covered by both.
    pub fn intersection(&self, other: &RangeMOCIndex) -> (r: RangeMOCIndex)
        requires
            self.wf(),
            other.wf(),
        ensures
            r.wf(),
            r.depth_spec() == if self.depth_spec() >= other.depth_spec() {
                self.depth_spec()
            } else {
                other.depth_spec()
            },
            forall|x: int|
                covers_point(r.ranges_spec(), x) <==> (covers_point(self.ranges_spec(), x)
                    && covers_point(other.ranges_spec(), x)),
    {
        RangeMOCIndex { moc: moc_intersection(&self.moc, &other.moc) }
    }

    /// Query by a region given as an index at the same depth.
    ///
    /// Returns the position slices needed to extract the covered
    /// subdomain — one joined slice per region range that overlaps the
    /// index, in region order — together with the sub-index covering the
    /// common identifiers.  Fails with `NotContiguous` when the spans a
    /// region range selects do not join into one slice.
    #[verifier::rlimit(100)]
    pub fn query(&self, region: &RangeMOCIndex) -> (r: Result<
        (MultiConcreteSlice, RangeMOCIndex),
        IndexingError,
    >)
        requires
            self.wf(),
            region.wf(),
            region.depth_spec() == self.depth_spec(),
        ensures
            r is Ok <==> query_multi(
                self.ranges_spec(),
                self.depth_spec(),
                region.ranges_spec(),
            ) is Ok,
            r matches Ok(pair) ==> (query_multi(
                self.ranges_spec(),
                self.depth_spec(),
                region.ranges_spec(),
            ) matches Ok(ms) && pair.0.slices@ == ms) && pair.1.wf() && pair.1.depth_spec()
                == self.depth_spec() && (forall|x: int|
                covers_point(pair.1.ranges_spec(), x) <==> (covers_point(self.ranges_spec(), x)
                    && covers_point(region.ranges_spec(), x))),
            r is Err ==> r == Err::<(MultiConcreteSlice, RangeMOCIndex), IndexingError>(
                IndexingError::NotContiguous,
            ),
    {
        let ghost d = self.depth_spec();
        let rs = moc_ranges_vec(&self.moc);
        let depth = moc_depth(&self.moc);
        let rr = moc_ranges_vec(&region.moc);
        let w = cell_width_exec(depth);
        let n = rs.len();
        let mreg = rr.len();
        let mut multi: Vec<ConcreteSlice> = Vec::new();
        let mut k: usize = 0;
        proof {
            assert(rr@.skip(0) =~= rr@);
        }
        while k < mreg
            invariant
                n == rs@.len(),
                mreg == rr@.len(),
                0 <= k <= mreg,
                depth as int == d,
                0 <= d <= 29,
                self.wf(),
                region.wf(),
                d == self.depth_spec(),
                region.depth_spec() == d,
                rs@ == self.ranges_spec(),
                rr@ == region.ranges_spec(),
                valid_ranges(rs@, d),
                valid_ranges(rr@, d),
                w as int == cell_width(d),
                w >= 1,
                query_multi(rs@, d, rr@) is Ok <==> query_multi(
                    rs@,
                    d,
                    rr@.skip(k as int),
                ) is Ok,
                query_multi(rs@, d, rr@) is Ok ==> query_multi(rs@, d, rr@)->Ok_0 == multi@
                    + query_multi(rs@, d, rr@.skip(k as int))->Ok_0,
            decreases mreg - k,
        {
            let ghost rtail = rr@.skip(k as int);
            proof {
                assert(rtail[0] == rr@[k as int]);
                assert(rtail.drop_first() =~= rr@.skip(k + 1 as int));
                lemma_range_cells(rr@[k as int], d);
            }
            let ro = rr[k];
            let so = ro.0 / w;
            let eo = ro.1 / w;
            let mut svs: Vec<ConcreteSlice> = Vec::new();
            let mut o: u64 = 0;
            let mut i: usize = 0;
            proof {
                assert(rs@.skip(0) =~= rs@);
                assert(rs@.take(0) =~= Seq::<(u64, u64)>::empty());
                assert(svs@ + region_slices(rs@, d, rr@[k as int], 0) =~= region_slices(
                    rs@,
                    d,
                    rr@[k as int],
                    0,
                ));
            }
            while i < n
                invariant
                    n == rs@.len(),
                    0 <= i <= n,
                    depth as int == d,
                    0 <= d <= 29,
                    valid_ranges(rs@, d),
                    valid_ranges(rr@, d),
                    0 <= k < rr@.len(),
                    w as int == cell_width(d),
                    w >= 1,
                    so as int == cell_lo(rr@[k as int], d),
                    eo as int == cell_hi(rr@[k as int], d),
                    o as int == offset_at(rs@, d, i as int),
                    region_slices(rs@, d, rr@[k as int], 0) == svs@ + region_slices(
                        rs@.skip(i as int),
                        d,
                        rr@[k as int],
                        o as int,
                    ),
                decreases n - i,
            {
                let ghost tail = rs@.skip(i as int);
                proof {
                    assert(tail[0] == rs@[i as int]);
                    lemma_range_cells(rs@[i as int], d);
                    lemma_n_cells_bound(d);
                    lemma_offset_at_succ(rs@, d, i as int);
                    lemma_valid_ranges_take(rs@, d, i + 1 as int);
                    lemma_total_len_bound(rs@.take(i + 1 as int), d);
                }
                let rg = rs[i];
                let a = rg.0 / w;
                let b = rg.1 / w;
                if so < b && eo > a {
                    let mv = if eo < b {
                        eo
                    } else {
                        b
                    };
                    let start_p = (if so > a {
                        so - a
                    } else {
                        0
                    }) + o;
                    let stop_p = (if mv > a {
                        mv - a
                    } else {
                        0
                    }) + o;
                    let cslice = ConcreteSlice {
                        start: start_p as i64,
                        stop: stop_p as i64,
                        step: 1,
                    };
                    svs.push(cslice);
                    proof {
                        assert(cslice == region_pos_slice(rr@[k as int], rs@[i as int], d, o as int));
                    }
                }
                proof {
                    assert(tail.drop_first() =~= rs@.skip(i + 1 as int));
                    if region_cond(rr@[k as int], rs@[i as int], d) {
                        assert(region_slices(tail, d, rr@[k as int], o as int).drop_first()
                            =~= region_slices(
                            rs@.skip(i + 1 as int),
                            d,
                            rr@[k as int],
                            o as int + range_len(rs@[i as int], d),
                        ));
                    }
                }
                o = o + ((rg.1 - rg.0) / w);
                proof {
                    lemma_range_len_div(rs@[i as int], d);
                }
                i = i + 1;
            }
            proof {
                assert(rs@.skip(n as int) =~= Seq::<(u64, u64)>::empty());
                assert(svs@ + Seq::<ConcreteSlice>::empty() =~= svs@);
            }
            let ghost svsspec = region_slices(rs@, d, rr@[k as int], 0);
            let ghost multi_before = multi@;
            if svs.len() > 0 {
                let joined = match ConcreteSlice::join_slices(svs) {
                    Ok(j) => j,
                    Err(_) => {
                        proof {
                            assert(!crate::slice_objects::joinable_spec(svsspec));
                            assert(query_multi(rs@, d, rtail) is Err);
                        }
                        return Err(IndexingError::NotContiguous);
                    },
                };
                multi.push(joined);
                proof {
                    assert(joined == joined_of(svsspec));
                    if query_multi(rs@, d, rr@.skip(k + 1 as int)) is Ok {
                        let t = query_multi(rs@, d, rr@.skip(k + 1 as int))->Ok_0;
                        assert(query_multi(rs@, d, rtail)->Ok_0 == seq![joined_of(svsspec)] + t);
                        assert(multi_before + (seq![joined_of(svsspec)] + t) =~= multi@ + t);
                    }
                }
            }
            k = k + 1;
        }
        proof {
            assert(rr@.skip(mreg as int) =~= Seq::<(u64, u64)>::empty());
            assert(multi@ + Seq::<ConcreteSlice>::empty() =~= multi@);
        }
        let inter = moc_intersection(&self.moc, &region.moc);
        Ok((MultiConcreteSlice { slices: multi }, RangeMOCIndex { moc: inter }))
    }

    /// Serialize the index to its textual interchange form, from which
    /// depth and ranges can be rebuilt; the text is in the canonical form
    /// `import_state` accepts.
    pub fn export_state(&self) -> (r: Vec<u8>)
        requires
            self.wf(),
        ensures
            r@ == state_text_of((self.depth_spec()) as u8, self.ranges_spec()),
            crate::state_format::state_bytes_ok(r@),
    {
        moc_to_state(&self.moc)
    }

    /// Replace the index's whole state with one parsed from interchange
    /// text, validating the text's shape, its depth and its ranges.
    ///
    /// Importing the text exported from any well-formed index restores that
    /// index's depth and ranges exactly.  Any other byte string is either
    /// canonical interchange text — bounded depth keys and in-range cell
    /// ids, checked before the parser ever sees the bytes — that parses to
    /// a well-formed index, or is rejected with `InvalidArgument`, leaving
    /// the receiver unchanged.
    pub fn import_state(&mut self, state: &Vec<u8>) -> (r: Result<(), IndexingError>)
        ensures
            r is Ok ==> final(self).wf(),
            r is Err ==> r == Err::<(), IndexingError>(IndexingError::InvalidArgument) && *final(self)
                == *old(self),
            forall|d: u8, rsx: Seq<(u64, u64)>|
                state@ == #[trigger] state_text_of(d, rsx) && d <= 29 && valid_ranges(
                    rsx,
                    d as int,
                ) && crate::state_format::state_bytes_ok(state@) ==> (r is Ok
                    && final(self).depth_spec() == d as int && final(self).ranges_spec() == rsx),
    {
        if !crate::state_format::check_state_bytes(state) {
            return Err(IndexingError::InvalidArgument);
        }
        let parsed = match moc_from_state(state) {
            Ok(m) => m,
            Err(_) => {
                return Err(IndexingError::InvalidArgument);
            },
        };
        let depth = moc_depth(&parsed);
        if depth > 29 {
            return Err(IndexingError::InvalidArgument);
        }
        let rsv = moc_ranges_vec(&parsed);
        if !validate_ranges(&rsv, depth) {
            return Err(IndexingError::InvalidArgument);
        }
        self.moc = parsed;
        Ok(())
    }
}

} // verus!
