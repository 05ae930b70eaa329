use location_based_sharding::cell_list::{CellList, CellScorer, UserCountScorer};
use location_based_sharding::geoshard::{Geoshard, GeoshardBuilder, GeoshardCollection, GeoshardSearcher};
use location_based_sharding::users::{Location, User};
use location_based_sharding::GeoshardError;

#[derive(Clone)]
struct TestUser {
    location: Location,
}

impl User for TestUser {
    fn location(&self) -> Location {
        self.location
    }
}

fn spread_users() -> Vec<TestUser> {
    let spots = [
        Location::new(40745255, -73988640),
        Location::new(34052235, -118243683),
        Location::new(41878113, -87629799),
        Location::new(29760427, -95369803),
        Location::new(47606209, -122332071),
        Location::new(51507351, -127657),
        Location::new(-33868820, 151209290),
        Location::new(35689487, 139691711),
    ];
    let mut users = Vec::new();
    for (i, spot) in spots.iter().enumerate() {
        for _ in 0..(i + 1) * 3 {
            users.push(TestUser { location: *spot });
        }
    }
    users
}

fn stddev(collection: &GeoshardCollection) -> f64 {
    let shards = collection.shards();
    let mean: f64 = shards.iter().fold(0.0, |sum, x| sum + x.cell_score() as f64)
        / shards.len() as f64;
    let variance: f64 = shards
        .iter()
        .map(|x| (x.cell_score() as f64 - mean) * (x.cell_score() as f64 - mean))
        .sum::<f64>()
        / shards.len() as f64;
    variance.sqrt()
}

#[test]
fn test_empty_user_stream() {
    let users: Vec<TestUser> = Vec::new();
    let shards = GeoshardBuilder::user_count_scorer(4, users, 40, 100)
        .build()
        .unwrap();
    let count = shards.shards().len();
    assert!(40 <= count && count <= 100);
    for shard in shards.shards().iter() {
        assert_eq!(shard.cell_score(), 0);
    }
    assert_eq!(stddev(&shards), 0.0);
}

#[test]
fn test_shard_count_stays_in_bounds() {
    for (min, max) in [(1, 1), (5, 10), (60, 60), (40, 100)] {
        let shards = GeoshardBuilder::user_count_scorer(4, spread_users(), min, max)
            .build()
            .unwrap();
        let count = shards.shards().len() as i32;
        assert!(min <= count && count <= max, "count {} not in [{}, {}]", count, min, max);
    }
}

#[test]
fn test_variance_minimization() {
    let users = spread_users();
    let chosen = GeoshardBuilder::user_count_scorer(4, users.clone(), 40, 100)
        .build()
        .unwrap();

    // rebuild the scored set the search ran over, and spot-check a few
    // alternate candidate counts
    let cell_list = CellList::new(4).unwrap();
    let scored = UserCountScorer.score_cell_list(cell_list, &users).unwrap();
    for alt_count in [40, 73, 100] {
        let alternate = GeoshardCollection::new(alt_count, &scored).unwrap();
        assert!(chosen.balance_no_worse_than(&alternate));
        assert!(stddev(&chosen) <= stddev(&alternate) + 1e-9);
    }
}

#[test]
fn test_configuration_errors() {
    let no_users: Vec<TestUser> = Vec::new();
    assert_eq!(
        GeoshardBuilder::user_count_scorer(4, no_users.clone(), 0, 10)
            .build()
            .unwrap_err(),
        GeoshardError::InvalidShardBounds
    );
    assert_eq!(
        GeoshardBuilder::user_count_scorer(4, no_users.clone(), 7, 3)
            .build()
            .unwrap_err(),
        GeoshardError::InvalidShardBounds
    );
    assert_eq!(
        GeoshardBuilder::user_count_scorer(31, no_users.clone(), 40, 100)
            .build()
            .unwrap_err(),
        GeoshardError::InvalidStorageLevel
    );
    assert!(!GeoshardError::InvalidStorageLevel.describe().is_empty());
}

#[test]
fn test_partitioner_errors() {
    let empty = CellList::with_cells(4, Vec::new());
    assert_eq!(
        GeoshardCollection::new(1, &empty).unwrap_err(),
        GeoshardError::EmptyScoredSet
    );

    let mut negative = CellList::with_cells(4, Vec::new());
    negative.push_cell(16, -5);
    assert_eq!(
        GeoshardCollection::new(1, &negative).unwrap_err(),
        GeoshardError::ScoredSetInvalid
    );

    let mut small = CellList::with_cells(4, Vec::new());
    small.push_cell(16, 1);
    small.push_cell(48, 1);
    assert_eq!(
        GeoshardCollection::new(0, &small).unwrap_err(),
        GeoshardError::InvalidShardBounds
    );
    assert_eq!(
        GeoshardCollection::new(3, &small).unwrap_err(),
        GeoshardError::TooFewCells
    );
}

#[test]
fn test_exact_partition() {
    let mut cells = CellList::with_cells(0, Vec::new());
    cells.push_cell(10, 5);
    cells.push_cell(20, 5);
    cells.push_cell(30, 5);
    cells.push_cell(40, 5);
    let collection = GeoshardCollection::new(2, &cells).unwrap();
    let shards = collection.shards();
    assert_eq!(shards.len(), 2);

    // capacity is 20 / 2 = 10: the first shard closes before the second
    // cell lifts it to the capacity, the trailing shard takes the rest
    assert_eq!(shards[0].name(), "geoshard_user_index_1");
    assert_eq!(shards[0].start(), 10);
    assert_eq!(shards[0].end(), 10);
    assert_eq!(shards[0].cell_score(), 5);
    assert_eq!(shards[0].cell_count(), 1);

    assert_eq!(shards[1].name(), "geoshard_user_index_2");
    assert_eq!(shards[1].start(), 20);
    assert_eq!(shards[1].end(), 40);
    assert_eq!(shards[1].cell_score(), 15);
    assert_eq!(shards[1].cell_count(), 3);
}

#[test]
fn test_shard_names_count_up() {
    let shards = GeoshardBuilder::user_count_scorer(4, spread_users(), 40, 100)
        .build()
        .unwrap();
    let shards = shards.shards();
    assert_eq!(shards[0].name(), "geoshard_user_index_1");
    assert_eq!(shards[9].name(), "geoshard_user_index_10");
    assert_eq!(shards[10].name(), "geoshard_user_index_11");
}

#[test]
fn test_lookup_fallback_returns_last_shard() {
    let shards = vec![
        Geoshard::new("a".to_owned(), 10, 20, 1, 0, 2),
        Geoshard::new("b".to_owned(), 30, 40, 1, 0, 2),
    ];
    let collection = GeoshardCollection::from_shards(shards, 0);
    let searcher = GeoshardSearcher::from(collection);

    assert_eq!(searcher.get_shard_from_cell_id(15).name(), "a");
    assert_eq!(searcher.get_shard_from_cell_id(30).name(), "b");
    // gaps and out-of-range cells fall back to the last shard
    assert_eq!(searcher.get_shard_from_cell_id(25).name(), "b");
    assert_eq!(searcher.get_shard_from_cell_id(5).name(), "b");
    assert_eq!(searcher.get_shard_from_cell_id(u64::MAX).name(), "b");
}

#[test]
fn test_single_user_lookup_consistency() {
    let home = Location::new(48856614, 2352222);
    let users = vec![TestUser { location: home }];
    let shards = GeoshardBuilder::user_count_scorer(6, users, 10, 20)
        .build()
        .unwrap();
    let total: i64 = shards.shards().iter().map(|s| s.cell_score()).sum();
    assert_eq!(total, 1);

    let searcher = GeoshardSearcher::from(shards);
    let shard = searcher.get_shard_from_location(home);
    // the one unit of load sits exactly in the shard that owns the user
    assert_eq!(shard.cell_score(), 1);
}

#[test]
fn test_location_maps_to_valid_storage_cell() {
    let users: Vec<TestUser> = Vec::new();
    let shards = GeoshardBuilder::user_count_scorer(8, users, 40, 100)
        .build()
        .unwrap();
    let searcher = GeoshardSearcher::from(shards);

    let tokyo = searcher.get_cell_id_from_location(Location::new(35689487, 139691711));
    let sydney = searcher.get_cell_id_from_location(Location::new(-33868820, 151209290));
    for cell in [tokyo, sydney] {
        let id = s2::cellid::CellID(cell);
        assert!(id.is_valid());
        assert_eq!(id.level(), 8);
    }
    assert_ne!(tokyo, sydney);

    // the same coordinate maps to the same cell on every query
    assert_eq!(
        tokyo,
        searcher.get_cell_id_from_location(Location::new(35689487, 139691711))
    );
}
