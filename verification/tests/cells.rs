use location_based_sharding::cell_list::CellList;
use location_based_sharding::GeoshardError;
use s2::cellid::CellID;

#[test]
fn test_geoshard_cell_list() {
    let cell_list = CellList::new(8).unwrap();
    assert_eq!(cell_list.cell_list().len(), 393216);
}

#[test]
fn test_cell_list_level_two_count() {
    let cell_list = CellList::new(2).unwrap();
    assert_eq!(cell_list.cell_list().len(), 96);
}

#[test]
fn test_cell_list_sorted_and_zeroed() {
    let cell_list = CellList::new(4).unwrap();
    let cells = cell_list.cell_list();
    assert_eq!(cells.len(), 1536);
    for w in cells.windows(2) {
        assert!(w[0].cell_id < w[1].cell_id);
    }
    for c in cells.iter() {
        assert_eq!(c.score, 0);
        let id = CellID(c.cell_id);
        assert!(id.is_valid());
        assert_eq!(id.level(), 4);
    }
}

#[test]
fn test_cell_list_rejects_deep_level() {
    assert_eq!(
        CellList::new(31).unwrap_err(),
        GeoshardError::InvalidStorageLevel
    );
}

#[test]
fn test_add_user_cell_counts_and_fails_loudly() {
    let mut cell_list = CellList::new(2).unwrap();
    let present = cell_list.cell_list()[7].cell_id;
    cell_list.add_user_cell(present).unwrap();
    cell_list.add_user_cell(present).unwrap();
    assert_eq!(cell_list.cell_list()[7].score, 2);

    // a leaf identifier is never in a level-2 list: an enumerator/seed
    // mismatch must be reported, not dropped
    let absent = CellID::from(s2::latlng::LatLng::from_degrees(10.0, 10.0)).0;
    assert_eq!(
        cell_list.add_user_cell(absent).unwrap_err(),
        GeoshardError::UserCellNotFound
    );
}

#[test]
fn test_add_user_cell_overflow() {
    let mut cell_list = CellList::with_cells(2, Vec::new());
    cell_list.push_cell(64, i64::MAX);
    assert_eq!(
        cell_list.add_user_cell(64).unwrap_err(),
        GeoshardError::ScoreOverflow
    );
}
