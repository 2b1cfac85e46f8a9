use healpix_geo::hierarchy::{children, parent, siblings};

#[test]
fn parent_at_same_depth_is_the_cell_itself() {
    assert_eq!(parent(4, 103, 4), 103);
}

#[test]
fn parent_divides_by_four_per_level() {
    // two levels coarser: divide by 16
    assert_eq!(parent(4, 103, 2), 6);
    assert_eq!(parent(3, 25, 2), 6);
    assert_eq!(parent(29, 12345678, 28), 3086419);
}

#[test]
fn siblings_at_depth_zero_are_the_twelve_base_cells() {
    assert_eq!(siblings(0, 5), (0..12).collect::<Vec<u64>>());
}

#[test]
fn siblings_share_the_parent_cell() {
    assert_eq!(siblings(2, 13), vec![12, 13, 14, 15]);
    assert_eq!(siblings(1, 0), vec![0, 1, 2, 3]);
}

#[test]
fn children_enumerate_the_subdivision() {
    assert_eq!(children(1, 3, 2), (12..16).collect::<Vec<u64>>());
    assert_eq!(children(0, 2, 2), (32..48).collect::<Vec<u64>>());
}
