use healpix_geo::errors::IndexingError;
use healpix_geo::index::{LabelIndexer, PositionIndexer, RangeMOCIndex, ResolvedPositions};
use healpix_geo::slice_objects::{CellIdSlice, ConcreteSlice, PositionalSlice};

fn slice_indexer(start: Option<i64>, stop: Option<i64>, step: Option<i64>) -> PositionIndexer {
    PositionIndexer::Slice(PositionalSlice::new(start, stop, step))
}

fn label_slice(start: Option<u64>, stop: Option<u64>, step: Option<u64>) -> LabelIndexer {
    LabelIndexer::Slice(CellIdSlice { start, stop, step })
}

#[test]
fn from_cell_ids_sorts_and_dedups() {
    let idx = RangeMOCIndex::from_cell_ids(4, vec![20, 10, 11, 10, 13, 12]).unwrap();
    assert_eq!(idx.depth(), 4);
    assert_eq!(idx.cell_ids(), vec![10, 11, 12, 13, 20]);
    assert_eq!(idx.size(), 5);
}

#[test]
fn from_cell_ids_rejects_bad_depth_and_cells() {
    assert_eq!(
        RangeMOCIndex::from_cell_ids(30, vec![0]).unwrap_err(),
        IndexingError::InvalidArgument
    );
    // depth 0 has only twelve cells
    assert_eq!(
        RangeMOCIndex::from_cell_ids(0, vec![12]).unwrap_err(),
        IndexingError::InvalidArgument
    );
    assert!(RangeMOCIndex::from_cell_ids(0, vec![11]).is_ok());
}

#[test]
fn full_domain_depth_zero() {
    let idx = RangeMOCIndex::full_domain(0);
    assert_eq!(idx.size(), 12);
    assert_eq!(idx.cell_ids(), (0..12).collect::<Vec<u64>>());
}

#[test]
fn create_empty_has_no_cells() {
    let idx = RangeMOCIndex::create_empty(7);
    assert_eq!(idx.depth(), 7);
    assert_eq!(idx.size(), 0);
    assert_eq!(idx.cell_ids(), Vec::<u64>::new());
}

#[test]
fn union_is_sorted_unique_union_of_labels() {
    let a = RangeMOCIndex::from_cell_ids(4, vec![10, 11, 12, 13]).unwrap();
    let b = RangeMOCIndex::from_cell_ids(4, vec![12, 13, 20]).unwrap();
    let u = a.union(&b);
    assert_eq!(u.cell_ids(), vec![10, 11, 12, 13, 20]);
    let v = a.intersection(&b);
    assert_eq!(v.cell_ids(), vec![12, 13]);
}

#[test]
fn union_uses_maximum_depth() {
    let a = RangeMOCIndex::create_empty(2);
    let b = RangeMOCIndex::create_empty(4);
    assert_eq!(a.union(&b).depth(), 4);
    assert_eq!(b.intersection(&a).depth(), 4);
}

#[test]
fn nbytes_counts_sixteen_bytes_per_range() {
    // two runs: [10, 14) and [20, 22)
    let idx = RangeMOCIndex::from_cell_ids(4, vec![10, 11, 12, 13, 20, 21]).unwrap();
    assert_eq!(idx.nbytes(), 32);
}

#[test]
fn isel_slice_selects_contiguous_positions() {
    let idx = RangeMOCIndex::from_cell_ids(4, vec![10, 11, 12, 13, 20, 21]).unwrap();
    let sub = idx.isel(slice_indexer(Some(1), Some(5), None)).unwrap();
    assert_eq!(sub.cell_ids(), vec![11, 12, 13, 20]);
    assert_eq!(sub.depth(), 4);
}

#[test]
fn isel_full_slice_is_identity() {
    let idx = RangeMOCIndex::from_cell_ids(4, vec![10, 11, 12, 13, 20, 21]).unwrap();
    let sub = idx.isel(slice_indexer(None, None, None)).unwrap();
    assert_eq!(sub.cell_ids(), idx.cell_ids());
    assert_eq!(sub.depth(), idx.depth());
    assert_eq!(sub.size(), idx.size());
}

#[test]
fn isel_slice_negative_bounds_count_from_end() {
    let idx = RangeMOCIndex::from_cell_ids(4, vec![10, 11, 12, 13, 20, 21]).unwrap();
    let sub = idx.isel(slice_indexer(Some(-2), None, None)).unwrap();
    assert_eq!(sub.cell_ids(), vec![20, 21]);
}

#[test]
fn isel_rejects_non_unit_stride() {
    let idx = RangeMOCIndex::from_cell_ids(4, vec![10, 11, 12, 13]).unwrap();
    assert_eq!(
        idx.isel(slice_indexer(None, None, Some(2))).unwrap_err(),
        IndexingError::InvalidArgument
    );
    assert_eq!(
        idx.isel(slice_indexer(None, None, Some(0))).unwrap_err(),
        IndexingError::InvalidArgument
    );
}

#[test]
fn isel_array_discards_order_and_duplicates() {
    let idx = RangeMOCIndex::from_cell_ids(4, vec![10, 11, 12, 13, 20, 21]).unwrap();
    let sub = idx.isel(PositionIndexer::Array(vec![4, 0, 4])).unwrap();
    assert_eq!(sub.cell_ids(), vec![10, 20]);
}

#[test]
fn isel_array_rejects_out_of_range_positions() {
    let idx = RangeMOCIndex::from_cell_ids(4, vec![10, 11, 12, 13, 20, 21]).unwrap();
    assert_eq!(
        idx.isel(PositionIndexer::Array(vec![0, 6])).unwrap_err(),
        IndexingError::OutOfRange
    );
}

#[test]
fn position_and_label_lookup_invert() {
    // position 3 holds cell id 13; selecting cell id 13 yields position 3
    let idx = RangeMOCIndex::from_cell_ids(4, vec![10, 11, 12, 13, 20, 21]).unwrap();
    let sub = idx.isel(PositionIndexer::Array(vec![3])).unwrap();
    assert_eq!(sub.cell_ids(), vec![13]);
    let (resolved, back) = idx.sel(LabelIndexer::Array(vec![13])).unwrap();
    assert_eq!(resolved, ResolvedPositions::Array(vec![3]));
    assert_eq!(back.cell_ids(), vec![13]);
}

#[test]
fn sel_array_keeps_query_order_of_positions() {
    let idx = RangeMOCIndex::from_cell_ids(4, vec![10, 11, 12, 13, 20, 21]).unwrap();
    let (resolved, sub) = idx.sel(LabelIndexer::Array(vec![20, 10, 12])).unwrap();
    // positions follow the query order, the sub-index does not
    assert_eq!(resolved, ResolvedPositions::Array(vec![4, 0, 2]));
    assert_eq!(sub.cell_ids(), vec![10, 12, 20]);
}

#[test]
fn sel_array_reports_first_missing_label() {
    let idx = RangeMOCIndex::from_cell_ids(4, vec![10, 11, 12, 13]).unwrap();
    assert_eq!(
        idx.sel(LabelIndexer::Array(vec![10, 7, 9])).unwrap_err(),
        IndexingError::KeyNotFound(7)
    );
}

#[test]
fn sel_slice_spanning_adjacent_offsets_succeeds() {
    // ranges {[0, 5), [10, 15)} at the finest depth; the label slice 3..=12
    // covers positions [3, 5) of the first run and [5, 8) of the second,
    // which are contiguous
    let mut cells: Vec<u64> = (0..5).collect();
    cells.extend(10..15);
    let idx = RangeMOCIndex::from_cell_ids(29, cells).unwrap();
    let (resolved, sub) = idx.sel(label_slice(Some(3), Some(12), None)).unwrap();
    assert_eq!(
        resolved,
        ResolvedPositions::Slice(ConcreteSlice { start: 3, stop: 8, step: 1 })
    );
    assert_eq!(sub.cell_ids(), vec![3, 4, 10, 11, 12]);
}

#[test]
fn sel_slice_without_overlap_is_rejected() {
    let mut cells: Vec<u64> = (0..5).collect();
    cells.extend(10..15);
    let idx = RangeMOCIndex::from_cell_ids(29, cells).unwrap();
    assert_eq!(
        idx.sel(label_slice(Some(100), Some(200), None)).unwrap_err(),
        IndexingError::InvalidArgument
    );
}

#[test]
fn sel_slice_rejects_malformed_bounds() {
    let idx = RangeMOCIndex::from_cell_ids(4, vec![10, 11, 12]).unwrap();
    assert_eq!(
        idx.sel(label_slice(Some(12), Some(10), None)).unwrap_err(),
        IndexingError::InvalidArgument
    );
    assert_eq!(
        idx.sel(label_slice(Some(10), Some(12), Some(0))).unwrap_err(),
        IndexingError::InvalidArgument
    );
}

#[test]
fn sel_then_isel_round_trip() {
    // the label bounds of a contiguous positional slice recover that slice
    let idx = RangeMOCIndex::from_cell_ids(4, vec![10, 11, 12, 13, 20, 21]).unwrap();
    let sub = idx.isel(slice_indexer(Some(1), Some(5), None)).unwrap();
    let labels = sub.cell_ids();
    let first = labels[0];
    let last = labels[labels.len() - 1];
    let (resolved, sub2) = idx.sel(label_slice(Some(first), Some(last), None)).unwrap();
    assert_eq!(
        resolved,
        ResolvedPositions::Slice(ConcreteSlice { start: 1, stop: 5, step: 1 })
    );
    assert_eq!(sub2.cell_ids(), sub.cell_ids());
}

#[test]
fn query_returns_multi_slice_and_sub_index() {
    // two contiguous runs at depth 4; a region covering {11, 12, 20} selects
    // positions 1..3 of the first run and position 4 of the second
    let idx = RangeMOCIndex::from_cell_ids(4, vec![10, 11, 12, 13, 20, 21]).unwrap();
    let region = RangeMOCIndex::from_cell_ids(4, vec![11, 12, 20]).unwrap();
    let (multi, sub) = idx.query(&region).unwrap();
    assert_eq!(
        multi.slices,
        vec![
            ConcreteSlice { start: 1, stop: 3, step: 1 },
            ConcreteSlice { start: 4, stop: 5, step: 1 },
        ]
    );
    assert_eq!(sub.cell_ids(), vec![11, 12, 20]);
    assert_eq!(multi.size().unwrap(), 3);
}

#[test]
fn query_with_region_spanning_both_runs() {
    let idx = RangeMOCIndex::from_cell_ids(4, vec![10, 11, 12, 13, 20, 21]).unwrap();
    let region = RangeMOCIndex::from_cell_ids(4, (10..22).collect()).unwrap();
    let (multi, sub) = idx.query(&region).unwrap();
    // one region range spanning both runs joins into one position slice
    assert_eq!(multi.slices, vec![ConcreteSlice { start: 0, stop: 6, step: 1 }]);
    assert_eq!(sub.cell_ids(), idx.cell_ids());
}

#[test]
fn query_with_disjoint_region_is_empty() {
    let idx = RangeMOCIndex::from_cell_ids(4, vec![10, 11, 12]).unwrap();
    let region = RangeMOCIndex::from_cell_ids(4, vec![100, 101]).unwrap();
    let (multi, sub) = idx.query(&region).unwrap();
    // the region touches nothing: no slices, empty sub-index
    assert_eq!(multi.slices, Vec::<ConcreteSlice>::new());
    assert_eq!(multi.size().unwrap(), 0);
    assert_eq!(sub.size(), 0);
}

#[test]
fn query_skips_region_ranges_that_only_touch() {
    // the region's range shares a boundary with the index's range but
    // covers none of its cells: no slice is emitted
    let idx = RangeMOCIndex::from_cell_ids(0, vec![0, 1]).unwrap();
    let region = RangeMOCIndex::from_cell_ids(0, vec![2, 3]).unwrap();
    let (multi, sub) = idx.query(&region).unwrap();
    assert_eq!(multi.slices, Vec::<ConcreteSlice>::new());
    assert_eq!(sub.size(), 0);
}

#[test]
fn query_full_domain_by_hashed_point_region() {
    // on the full domain positions equal labels, so a one-cell region maps
    // to the slice at that cell id
    let layer = cdshealpix::nested::get(4);
    let cell = layer.hash(12.5_f64.to_radians(), 41.9_f64.to_radians());
    let idx = RangeMOCIndex::full_domain(4);
    let region = RangeMOCIndex::from_cell_ids(4, vec![cell]).unwrap();
    let (multi, sub) = idx.query(&region).unwrap();
    assert_eq!(sub.cell_ids(), vec![cell]);
    assert_eq!(
        multi.slices,
        vec![ConcreteSlice { start: cell as i64, stop: cell as i64 + 1, step: 1 }]
    );
}

#[test]
fn empty_index_isel_returns_empty_without_error() {
    let idx = RangeMOCIndex::create_empty(4);
    let sub = idx.isel(slice_indexer(None, None, None)).unwrap();
    assert_eq!(sub.size(), 0);
    let sub2 = idx.isel(slice_indexer(Some(0), Some(100), None)).unwrap();
    assert_eq!(sub2.size(), 0);
}

#[test]
fn empty_index_sel_always_fails_with_key_not_found() {
    let idx = RangeMOCIndex::create_empty(4);
    assert_eq!(
        idx.sel(LabelIndexer::Array(vec![5])).unwrap_err(),
        IndexingError::KeyNotFound(5)
    );
    assert_eq!(
        idx.sel(LabelIndexer::Array(vec![0, 1])).unwrap_err(),
        IndexingError::KeyNotFound(0)
    );
}

#[test]
fn state_round_trips_through_interchange_text() {
    let idx = RangeMOCIndex::from_cell_ids(4, vec![10, 11, 12, 13, 20, 21]).unwrap();
    let state = idx.export_state();
    let mut rebuilt = RangeMOCIndex::create_empty(0);
    rebuilt.import_state(&state).unwrap();
    assert_eq!(rebuilt.depth(), 4);
    assert_eq!(rebuilt.cell_ids(), idx.cell_ids());
}

#[test]
fn state_round_trips_for_empty_index() {
    let idx = RangeMOCIndex::create_empty(9);
    let state = idx.export_state();
    let mut rebuilt = RangeMOCIndex::create_empty(0);
    rebuilt.import_state(&state).unwrap();
    assert_eq!(rebuilt.depth(), 9);
    assert_eq!(rebuilt.size(), 0);
}

#[test]
fn import_state_rejects_garbage() {
    let mut idx = RangeMOCIndex::from_cell_ids(2, vec![1, 2]).unwrap();
    let err = idx.import_state(&vec![0xff, 0x00, 0x12]).unwrap_err();
    assert_eq!(err, IndexingError::InvalidArgument);
    // the index is left unchanged
    assert_eq!(idx.cell_ids(), vec![1, 2]);
}

#[test]
fn import_state_rejects_overflowing_cell_ids() {
    // parseable JSON whose cell id would overflow the parser's
    // cell-to-range conversion: rejected before the parser sees it
    let mut idx = RangeMOCIndex::create_empty(0);
    let compact = b"{\"29\":[18446744073709551615]}".to_vec();
    assert_eq!(idx.import_state(&compact).unwrap_err(), IndexingError::InvalidArgument);
    // the same value in canonical layout: twenty digits, rejected
    let canonical = b"{\n  \"29\": [18446744073709551615]\n}".to_vec();
    assert_eq!(idx.import_state(&canonical).unwrap_err(), IndexingError::InvalidArgument);
    // nineteen digits but at least the cell count at depth 29: rejected
    let out_of_range = b"{\n  \"29\": [9999999999999999999]\n}".to_vec();
    assert_eq!(idx.import_state(&out_of_range).unwrap_err(), IndexingError::InvalidArgument);
    assert_eq!(idx.size(), 0);
}

#[test]
fn import_state_accepts_only_canonical_text() {
    // valid JSON in a non-canonical layout is refused
    let mut idx = RangeMOCIndex::create_empty(0);
    let compact = b"{\"0\": [1]}".to_vec();
    assert_eq!(idx.import_state(&compact).unwrap_err(), IndexingError::InvalidArgument);
    // the canonical layout of the same state is accepted
    let canonical = b"{\n  \"0\": [1]\n}".to_vec();
    idx.import_state(&canonical).unwrap();
    assert_eq!(idx.depth(), 0);
    assert_eq!(idx.cell_ids(), vec![1]);
}
