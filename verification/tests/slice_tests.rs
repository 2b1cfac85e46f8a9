use healpix_geo::errors::IndexingError;
use healpix_geo::slice_objects::{ConcreteSlice, MultiConcreteSlice, PositionalSlice};

#[test]
fn concrete_slice_size_counts_stride_elements() {
    assert_eq!(ConcreteSlice { start: 0, stop: 10, step: 3 }.size().unwrap(), 4);
    assert_eq!(ConcreteSlice { start: 0, stop: 10, step: 1 }.size().unwrap(), 10);
    assert_eq!(ConcreteSlice { start: 5, stop: 5, step: 1 }.size().unwrap(), 0);
    assert_eq!(ConcreteSlice { start: 7, stop: 3, step: 1 }.size().unwrap(), 0);
    // descending strides count down from start to just above stop
    assert_eq!(ConcreteSlice { start: 10, stop: 0, step: -2 }.size().unwrap(), 5);
    assert_eq!(ConcreteSlice { start: 10, stop: 0, step: -3 }.size().unwrap(), 4);
}

#[test]
fn concrete_slice_size_rejects_zero_step() {
    assert_eq!(
        ConcreteSlice { start: 0, stop: 10, step: 0 }.size().unwrap_err(),
        IndexingError::InvalidArgument
    );
}

#[test]
fn concrete_slice_indices_returns_fields() {
    let s = ConcreteSlice { start: 2, stop: 9, step: 3 };
    assert_eq!(s.indices(), (2, 9, 3));
}

#[test]
fn join_slices_joins_contiguous_slices() {
    let joined = ConcreteSlice::join_slices(vec![
        ConcreteSlice { start: 0, stop: 2, step: 1 },
        ConcreteSlice { start: 2, stop: 5, step: 1 },
        ConcreteSlice { start: 5, stop: 6, step: 1 },
    ])
    .unwrap();
    assert_eq!(joined, ConcreteSlice { start: 0, stop: 6, step: 1 });
}

#[test]
fn join_slices_of_single_slice_is_identity() {
    let s = ConcreteSlice { start: 3, stop: 8, step: 1 };
    assert_eq!(ConcreteSlice::join_slices(vec![s]).unwrap(), s);
    assert_eq!(ConcreteSlice::join(vec![s]).unwrap(), s);
}

#[test]
fn join_slices_rejects_gaps() {
    assert_eq!(
        ConcreteSlice::join_slices(vec![
            ConcreteSlice { start: 0, stop: 2, step: 1 },
            ConcreteSlice { start: 3, stop: 5, step: 1 },
        ])
        .unwrap_err(),
        IndexingError::NotContiguous
    );
}

#[test]
fn join_slices_rejects_step_mismatch() {
    assert_eq!(
        ConcreteSlice::join_slices(vec![
            ConcreteSlice { start: 0, stop: 2, step: 1 },
            ConcreteSlice { start: 2, stop: 5, step: 2 },
        ])
        .unwrap_err(),
        IndexingError::NotContiguous
    );
}

#[test]
fn join_slices_rejects_empty_list() {
    assert_eq!(
        ConcreteSlice::join_slices(Vec::new()).unwrap_err(),
        IndexingError::InvalidArgument
    );
}

#[test]
fn positional_slice_resolves_defaults() {
    let s = PositionalSlice::new(None, None, None);
    assert_eq!(s.indices(10).unwrap(), (0, 10, 1));
}

#[test]
fn positional_slice_resolves_negative_bounds() {
    assert_eq!(
        PositionalSlice::new(Some(-3), None, None).indices(10).unwrap(),
        (7, 10, 1)
    );
    assert_eq!(
        PositionalSlice::new(None, Some(-1), None).indices(10).unwrap(),
        (0, 9, 1)
    );
}

#[test]
fn positional_slice_clamps_out_of_range_bounds() {
    assert_eq!(
        PositionalSlice::new(Some(-20), Some(20), None).indices(10).unwrap(),
        (0, 10, 1)
    );
}

#[test]
fn positional_slice_negative_step_defaults() {
    // with a negative step iteration runs from the last position down to
    // one before the first
    assert_eq!(
        PositionalSlice::new(None, None, Some(-1)).indices(10).unwrap(),
        (9, -1, -1)
    );
}

#[test]
fn positional_slice_rejects_zero_step() {
    assert_eq!(
        PositionalSlice::new(None, None, Some(0)).indices(10).unwrap_err(),
        IndexingError::InvalidArgument
    );
}

#[test]
fn positional_slice_as_concrete_matches_indices() {
    let s = PositionalSlice::new(Some(2), Some(-2), None);
    let c = s.as_concrete(10).unwrap();
    assert_eq!(c, ConcreteSlice { start: 2, stop: 8, step: 1 });
}

#[test]
fn multi_slice_size_sums_members() {
    let m = MultiConcreteSlice {
        slices: vec![
            ConcreteSlice { start: 1, stop: 3, step: 1 },
            ConcreteSlice { start: 4, stop: 5, step: 1 },
        ],
    };
    assert_eq!(m.size().unwrap(), 3);
    let empty = MultiConcreteSlice { slices: Vec::new() };
    assert_eq!(empty.size().unwrap(), 0);
}

#[test]
fn multi_slice_size_rejects_zero_step_member() {
    let m = MultiConcreteSlice {
        slices: vec![ConcreteSlice { start: 1, stop: 3, step: 0 }],
    };
    assert_eq!(m.size().unwrap_err(), IndexingError::InvalidArgument);
}

#[test]
fn indexing_error_describe_names_the_failure() {
    assert_eq!(IndexingError::NotContiguous.describe(), "slices are not contiguous");
    assert_eq!(
        IndexingError::UnsupportedInput("Curve".to_string()).describe(),
        "Curve"
    );
}
