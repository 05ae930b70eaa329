use location_based_sharding::cell_list::{CellList, CellScorer, ScoredCell};
use location_based_sharding::geoshard::{Geoshard, GeoshardBuilder, GeoshardCollection, GeoshardSearcher};
use location_based_sharding::users::{Location, User};
use location_based_sharding::GeoshardError;
use rand::distributions::Alphanumeric;
use rand::prelude::SliceRandom;
use rand::{thread_rng, Rng};
use s2::cellid::CellID;

fn city_list() -> Vec<Location> {
    vec![
        Location::new(40745255, 40745255),
        Location::new(34155834, 34155834),
        Location::new(42933334, 42933334),
        Location::new(42095554, 42095554),
        Location::new(38846668, 38846668),
        Location::new(41392502, 41392502),
        Location::new(27192223, 27192223),
        Location::new(31442778, 31442778),
        Location::new(40560001, 40560001),
        Location::new(33193611, 33193611),
        Location::new(41676388, 41676388),
        Location::new(41543056, 41543056),
        Location::new(39554443, 39554443),
        Location::new(44513332, 44513332),
        Location::new(37554169, 37554169),
        Location::new(32349998, 32349998),
        Location::new(29499722, 29499722),
        Location::new(33038334, 33038334),
        Location::new(43614166, 43614166),
        Location::new(41556110, 41556110),
        Location::new(34000000, 34000000),
        Location::new(26709723, 26709723),
        Location::new(38005001, 38005001),
        Location::new(35970554, 35970554),
        Location::new(25942122, 25942122),
        Location::new(33569443, 33569443),
        Location::new(39799999, 39799999),
        Location::new(34073334, 34073334),
        Location::new(40606388, 40606388),
        Location::new(30601389, 30601389),
        Location::new(38257778, 38257778),
        Location::new(37977222, 37977222),
        Location::new(42373611, 42373611),
        Location::new(32965557, 32965557),
        Location::new(37871666, 37871666),
        Location::new(38951561, 38951561),
        Location::new(33950001, 33950001),
        Location::new(30216667, 30216667),
        Location::new(42580276, 42580276),
        Location::new(36316666, 36316666),
        Location::new(37034946, 37034946),
        Location::new(40689167, 40689167),
        Location::new(33630554, 33630554),
        Location::new(39903057, 39903057),
        Location::new(25978889, 25978889),
        Location::new(35846111, 35846111),
        Location::new(34156113, 34156113),
        Location::new(41186390, 41186390),
        Location::new(40914745, 40914745),
        Location::new(42259445, 42259445),
        Location::new(41520557, 41520557),
        Location::new(33124722, 33124722),
        Location::new(39106667, 39106667),
        Location::new(42101391, 42101391),
        Location::new(37210388, 37210388),
        Location::new(33866669, 33866669),
        Location::new(26012501, 26012501),
        Location::new(38438332, 38438332),
        Location::new(33211666, 33211666),
        Location::new(37070831, 37070831),
        Location::new(43536388, 43536388),
        Location::new(45633331, 45633331),
        Location::new(42271389, 42271389),
        Location::new(30455000, 30455000),
        Location::new(32492222, 32492222),
        Location::new(33466667, 33466667),
        Location::new(32361668, 32361668),
        Location::new(41763889, 41763889),
        Location::new(35199165, 35199165),
        Location::new(37661388, 37661388),
        Location::new(32907223, 32907223),
        Location::new(33669445, 33669445),
        Location::new(39710835, 39710835),
        Location::new(32705002, 32705002),
        Location::new(39099724, 39099724),
        Location::new(35117500, 35117500),
        Location::new(39791000, 39791000),
        Location::new(39983334, 39983334),
        Location::new(30266666, 30266666),
        Location::new(32779167, 32779167),
        Location::new(37487846, 37487846),
        Location::new(35255280, 35255280),
        Location::new(29700001, 29700001),
        Location::new(26838619, 26838619),
        Location::new(38473625, 38473625),
        Location::new(29749907, 29749907),
        Location::new(40191891, 40191891),
        Location::new(33830517, 33830517),
        Location::new(34496212, 34496212),
        Location::new(37541290, 37541290),
        Location::new(36082157, 36082157),
        Location::new(32698437, 32698437),
        Location::new(33580944, 33580944),
        Location::new(33427204, 33427204),
        Location::new(34028622, 34028622),
        Location::new(32609856, 32609856),
        Location::new(33405746, 33405746),
        Location::new(34603817, 34603817),
        Location::new(44840797, 44840797),
        Location::new(71290558, 71290558),
    ]
}

#[derive(Clone, PartialEq)]
struct FakeUser {
    name: String,
    location: Location,
}

impl FakeUser {
    fn new(cities: &[Location]) -> FakeUser {
        let name: String = thread_rng()
            .sample_iter(&Alphanumeric)
            .take(30)
            .map(char::from)
            .collect();
        let location = *cities.choose(&mut thread_rng()).unwrap();
        FakeUser { name, location }
    }
}

impl User for FakeUser {
    fn location(&self) -> Location {
        self.location
    }
}

struct RandomCellScore;

impl<U: User> CellScorer<U> for RandomCellScore {
    fn score_cell_list(
        &self,
        cell_list: CellList,
        _users: &Vec<U>,
    ) -> Result<CellList, GeoshardError> {
        let mut cell_list = cell_list;
        let mock_values = cell_list.mut_cell_list();
        let mut rng = rand::thread_rng();

        let mut mock = |count: i32, low: i64, high: i64, cells: &mut Vec<ScoredCell>| {
            for _ in 0..=count {
                let rand_lat = rng.gen_range(0.000000..2000.000000);
                let rand_long = rng.gen_range(0.000000..2000.000000);
                let cell_id = CellID::from(s2::latlng::LatLng::from_degrees(rand_lat, rand_long)).0;
                let rand_load_count = rng.gen_range(low..high);
                cells.push(ScoredCell { cell_id, score: rand_load_count });
            }
        };

        // ocean, small cities, medium cities, big cities
        mock(1000, 0, 5, mock_values);
        mock(100, 10, 100, mock_values);
        mock(50, 100, 500, mock_values);
        mock(10, 1000, 2000, mock_values);

        mock_values.sort_by_key(|c| c.cell_id);
        mock_values.dedup_by_key(|c| c.cell_id);
        Ok(cell_list)
    }
}

fn cell_ids_from_radius(searcher: &GeoshardSearcher, location: Location, radius: u32) -> Vec<u64> {
    let ll = s2::latlng::LatLng::new(
        s2::s1::E6(location.lat_e6).into(),
        s2::s1::E6(location.lng_e6).into(),
    );
    let center_point = s2::point::Point::from(&ll);
    let center_angle: s2::s1::Angle = s2::s1::Deg(radius as f64 / 6.37e6f64).into();
    let cap = s2::cap::Cap::from_center_angle(&center_point, &center_angle);
    let region_cover = s2::region::RegionCoverer {
        max_level: searcher.storage_level() as u8,
        min_level: searcher.storage_level() as u8,
        level_mod: 0,
        max_cells: 0,
    };
    region_cover.covering(&cap).0.into_iter().map(|c| c.0).collect()
}

#[test]
fn test_shard_search() {
    let cities = city_list();
    let geoshards = GeoshardBuilder::user_count_scorer(4, vec![FakeUser::new(&cities)], 40, 100)
        .build()
        .unwrap();
    let geoshard_searcher = GeoshardSearcher::from(geoshards);

    let geoshard = geoshard_searcher.get_shard_from_location(Location::new(34181061, -103345177));

    let cell_id = geoshard_searcher.get_cell_id_from_location(Location::new(34181061, -103345177));

    assert!(geoshard.cell_union().contains_cellid(&CellID(cell_id)));
}

#[test]
fn test_shard_radius_search() {
    let cities = city_list();
    let geoshard = GeoshardBuilder::new(
        4,
        vec![FakeUser::new(&cities)],
        RandomCellScore,
        40,
        100,
    )
    .build()
    .unwrap();
    let geoshards = GeoshardSearcher::from(geoshard);
    let cell_ids = cell_ids_from_radius(&geoshards, Location::new(34181061, -103345177), 200);
    let geoshards = geoshards.get_shards_from_cell_ids(&cell_ids);
    assert_eq!(geoshards.len(), 1);
}

#[test]
fn test_generate_shards() {
    let cities = city_list();
    let geoshard = GeoshardBuilder::new(
        4,
        vec![FakeUser::new(&cities)],
        RandomCellScore,
        40,
        100,
    )
    .build()
    .unwrap();

    let shards = geoshard.shards();

    if (shards.len() as i32) > 100 || (shards.len() as i32) < 40 {
        panic!("Shard len out of range: {}", shards.len());
    }
}

fn shard(cell_score: i64) -> Geoshard {
    Geoshard::new(
        "fake-shard".to_owned(),
        CellID::from_token("00001").0,
        CellID::from_token("00003").0,
        cell_score,
        0,
        2,
    )
}

#[test]
fn test_standard_deviation() {
    let shards = vec![
        shard(9),
        shard(2),
        shard(5),
        shard(4),
        shard(12),
        shard(7),
        shard(8),
        shard(11),
        shard(9),
        shard(3),
        shard(7),
        shard(4),
        shard(12),
        shard(5),
        shard(4),
        shard(10),
        shard(9),
        shard(6),
        shard(9),
        shard(4),
    ];

    let geoshard_collection = GeoshardCollection::from_shards(shards, 4);

    let all = geoshard_collection.shards();
    let mean: f64 = all.iter().fold(0.0, |sum, x| sum + x.cell_score() as f64) / all.len() as f64;
    let varience: f64 = all
        .iter()
        .map(|x| (x.cell_score() as f64 - mean) * (x.cell_score() as f64 - mean))
        .sum::<f64>()
        / all.len() as f64;
    let standard_dev = varience.sqrt();

    assert_eq!(standard_dev, 2.9832867780352594_f64)
}
