use avail_cda::constants::{GRID_COLS_EXTENDED, GRID_ROWS_EXTENDED};
use avail_cda::header::{DataLookup, HeaderExtension};
use primitive_types::H256;

#[test]
fn empty_header_carries_root_and_no_data() {
    let root = H256::repeat_byte(7);
    let h = HeaderExtension::get_empty_header(root);
    assert_eq!(h.data_root(), root);
    assert_eq!(h.app_lookup(), &DataLookup::new_empty());
    assert!(h.commitment.column_commitments.is_empty());
    assert_eq!(h.rows(), GRID_ROWS_EXTENDED);
    assert_eq!(h.cols(), GRID_COLS_EXTENDED);
    assert_eq!(h.rows(), 64);
}

#[test]
fn faulty_header_marks_error_lookup() {
    let root = H256::repeat_byte(1);
    let h = HeaderExtension::get_faulty_header(root);
    assert_eq!(h.data_root(), root);
    assert_eq!(h.app_lookup().index, vec![(0u32, 0u32, u32::MAX)]);
    assert_ne!(h, HeaderExtension::get_empty_header(root));
}
