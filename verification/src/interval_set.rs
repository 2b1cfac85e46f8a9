//! Trusted boundary to the `moc` crate's compressed range set.
//!
//! The range algebra itself (construction from a cell list, union,
//! intersection, serialization) is delegated to `moc`'s
//! `RangeMOC<u64, Hpx<u64>>`.  Each call the library makes enters through a
//! wrapper below whose contract states, over [`moc_ranges_seq`] and
//! [`moc_depth_of`], what the crate's source shows; Verus believes these
//! contracts without reading the bodies.

use crate::range_model::{cell_width, covers_point, domain_end, n_cells, valid_ranges};
use moc::moc::range::RangeMOC;
use moc::moc::{CellMOCIntoIterator, CellMOCIterator, HasMaxDepth, RangeMOCIntoIterator,
    RangeMOCIterator};
use moc::qty::Hpx;
use vstd::prelude::*;

verus! {

/// The compressed range set: an opaque handle around the `moc` crate's
/// `RangeMOC` at the canonical 64-bit HEALPix quantity.
#[derive(Debug)]
#[verifier::external_body]
pub struct IntervalSet {
    moc: RangeMOC<u64, Hpx<u64>>,
}

/// The ranges an interval set holds, in storage order, as canonical
/// (depth-29) half-open bounds.
pub uninterp spec fn moc_ranges_seq(m: IntervalSet) -> Seq<(u64, u64)>;

/// The resolution an interval set was built with.
pub uninterp spec fn moc_depth_of(m: IntervalSet) -> u8;

/// The serialized interchange text of a MOC with the given depth and ranges;
/// a function of those alone.
pub uninterp spec fn state_text_of(depth: u8, rs: Seq<(u64, u64)>) -> Seq<u8>;

/// A MOC the model can speak about: depth in range and ranges well-formed.
pub open spec fn moc_wf(m: IntervalSet) -> bool {
    &&& moc_depth_of(m) <= 29
    &&& valid_ranges(moc_ranges_seq(m), moc_depth_of(m) as int)
}

/// Relies on moc's `RangeMOC::new_full_domain`: a single range covering the
/// whole canonical domain `[0, 12 * 4^29)`.
#[verifier::external_body]
pub(crate) fn moc_full_domain(depth: u8) -> (r: IntervalSet)
    requires
        depth <= 29,
    ensures
        moc_depth_of(r) == depth,
        moc_ranges_seq(r) == seq![(0u64, 0x3000_0000_0000_0000u64)],
{
    IntervalSet { moc: RangeMOC::new_full_domain(depth) }
}

/// Relies on moc's `RangeMOC::new_empty`: a MOC with no ranges.
#[verifier::external_body]
pub(crate) fn moc_empty(depth: u8) -> (r: IntervalSet)
    requires
        depth <= 29,
    ensures
        moc_depth_of(r) == depth,
        moc_ranges_seq(r) == Seq::<(u64, u64)>::empty(),
{
    IntervalSet { moc: RangeMOC::new_empty(depth) }
}

/// Relies on moc's `RangeMOC::from_fixed_depth_cells`: the result is a
/// well-formed (sorted, disjoint, merged, aligned) range set at `depth`
/// covering exactly the given cells, regardless of their order or
/// multiplicity.
#[verifier::external_body]
pub(crate) fn moc_from_fixed_depth_cells(depth: u8, cells: &Vec<u64>) -> (r: IntervalSet)
    requires
        depth <= 29,
        forall|j: int| 0 <= j < cells@.len() ==> (#[trigger] cells@[j]) < n_cells(depth as int),
    ensures
        moc_depth_of(r) == depth,
        valid_ranges(moc_ranges_seq(r), depth as int),
        forall|x: int|
            covers_point(moc_ranges_seq(r), x) <==> (0 <= x < domain_end() && cells@.contains(
                ((x / cell_width(depth as int)) as u64),
            )),
{
    IntervalSet { moc: RangeMOC::from_fixed_depth_cells(depth, cells.iter().copied(), None) }
}

/// Relies on moc's `RangeMOC::union`: a well-formed range set covering the
/// identifiers either input covers, at the finer of the two depths.
#[verifier::external_body]
pub(crate) fn moc_union(a: &IntervalSet, b: &IntervalSet) -> (r: IntervalSet)
    requires
        moc_wf(*a),
        moc_wf(*b),
    ensures
        moc_depth_of(r) == if moc_depth_of(*a) >= moc_depth_of(*b) {
            moc_depth_of(*a)
        } else {
            moc_depth_of(*b)
        },
        valid_ranges(moc_ranges_seq(r), moc_depth_of(r) as int),
        forall|x: int|
            covers_point(moc_ranges_seq(r), x) <==> (covers_point(moc_ranges_seq(*a), x)
                || covers_point(moc_ranges_seq(*b), x)),
{
    IntervalSet { moc: a.moc.union(&b.moc) }
}

/// Relies on moc's `RangeMOC::intersection`: a well-formed range set covering
/// the identifiers both inputs cover, at the finer of the two depths.
#[verifier::external_body]
pub(crate) fn moc_intersection(a: &IntervalSet, b: &IntervalSet) -> (r: IntervalSet)
    requires
        moc_wf(*a),
        moc_wf(*b),
    ensures
        moc_depth_of(r) == if moc_depth_of(*a) >= moc_depth_of(*b) {
            moc_depth_of(*a)
        } else {
            moc_depth_of(*b)
        },
        valid_ranges(moc_ranges_seq(r), moc_depth_of(r) as int),
        forall|x: int|
            covers_point(moc_ranges_seq(r), x) <==> (covers_point(moc_ranges_seq(*a), x)
                && covers_point(moc_ranges_seq(*b), x)),
{
    IntervalSet { moc: a.moc.intersection(&b.moc) }
}

/// Relies on moc's `RangeMOC::moc_ranges`: the stored ranges, in order.
#[verifier::external_body]
pub(crate) fn moc_ranges_vec(m: &IntervalSet) -> (r: Vec<(u64, u64)>)
    ensures
        r@ == moc_ranges_seq(*m),
{
    m.moc.moc_ranges().0.0.iter().map(|rg| (rg.start, rg.end)).collect()
}

/// Relies on moc's `RangeMOC::depth_max`: the depth the MOC was built with.
#[verifier::external_body]
pub(crate) fn moc_depth(m: &IntervalSet) -> (r: u8)
    ensures
        r == moc_depth_of(*m),
{
    m.moc.depth_max()
}

/// Relies on moc's `MocRanges::new_from` and `RangeMOC::new`: on an already
/// sorted, disjoint, non-adjacent range list the constructor stores the
/// ranges exactly as given.
#[verifier::external_body]
pub(crate) fn moc_from_ranges(depth: u8, rs: &Vec<(u64, u64)>) -> (r: IntervalSet)
    requires
        depth <= 29,
        valid_ranges(rs@, depth as int),
    ensures
        moc_depth_of(r) == depth,
        moc_ranges_seq(r) == rs@,
{
    let ranges: Vec<std::ops::Range<u64>> = rs.iter().map(|t| t.0..t.1).collect();
    IntervalSet { moc: RangeMOC::new(depth, moc::elemset::range::MocRanges::new_from(ranges)) }
}

/// Relies on moc's `to_json_aladin` (through `CellMOCIterator`): the
/// serialized text depends on the MOC's depth and ranges alone, and writing
/// into a `Vec` cannot fail.  The text is in the canonical form
/// `state_bytes_ok` describes: one `  "D": [cells]` entry per depth in
/// increasing order, comma-newline separated, inside `{`/`}`; every depth
/// key is at most 29 and every cell id is below the cell count of its
/// depth, because the cells are the hierarchical decomposition of ranges
/// inside the canonical domain.
#[verifier::external_body]
pub(crate) fn moc_to_state(m: &IntervalSet) -> (r: Vec<u8>)
    requires
        moc_wf(*m),
    ensures
        r@ == state_text_of(moc_depth_of(*m), moc_ranges_seq(*m)),
        crate::state_format::state_bytes_ok(r@),
{
    let mut buf: Vec<u8> = Vec::new();
    let _ = m.moc.clone().into_range_moc_iter().cells().to_json_aladin(None, &mut buf);
    buf
}

/// What restoring from serialized text guarantees: whenever the bytes are
/// the interchange text of some well-formed depth and range list, the parse
/// succeeds and returns a MOC with exactly that depth and those ranges.
pub open spec fn restores_state(bytes: Seq<u8>, r: Result<IntervalSet, ()>) -> bool {
    forall|d: u8, rs: Seq<(u64, u64)>|
        bytes == #[trigger] state_text_of(d, rs) && d <= 29 && valid_ranges(rs, d as int) ==> (
        r matches Ok(m) && moc_depth_of(m) == d && moc_ranges_seq(m) == rs)
}

/// Relies on moc's `from_json_aladin` and `RangeMOC::from_cells`: parsing the
/// serialized text of a well-formed MOC restores its depth and its ranges.
///
/// The bytes must be pre-validated canonical interchange text: with every
/// depth key at most 29 and every cell id below the cell count of its
/// depth, the parser's cell-to-range conversion (`ipix + 1`, then a shift
/// by twice the depth difference) stays inside 64 bits, so the call cannot
/// overflow or panic.
#[verifier::external_body]
pub(crate) fn moc_from_state(bytes: &Vec<u8>) -> (r: Result<IntervalSet, ()>)
    requires
        crate::state_format::state_bytes_ok(bytes@),
    ensures
        restores_state(bytes@, r),
{
    match std::str::from_utf8(bytes.as_slice()) {
        Err(_) => Err(()),
        Ok(text) => match moc::deser::json::from_json_aladin::<u64, Hpx<u64>>(text) {
            Err(_) => Err(()),
            Ok(cell_moc) => {
                let depth = cell_moc.depth_max();
                let it = cell_moc.into_cell_moc_iter().map(|c| (c.depth, c.idx));
                Ok(IntervalSet { moc: RangeMOC::from_cells(depth, it, None) })
            },
        },
    }
}

} // verus!
