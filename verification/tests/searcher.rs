use std::collections::HashMap;

use location_based_sharding::geoshard::{GeoshardBuilder, GeoshardSearcher};
use location_based_sharding::users::{Location, User};
use rand::distributions::Alphanumeric;
use rand::prelude::SliceRandom;
use rand::{thread_rng, Rng};

fn city_list() -> Vec<Location> {
    vec![
        Location::new(40745255, 40745255),
        Location::new(34155834, 34155834),
        Location::new(42933334, 42933334),
        Location::new(42095554, 42095554),
        Location::new(38846668, 38846668),
        Location::new(41392502, 41392502),
        Location::new(27192223, 27192223),
        Location::new(31442778, 31442778),
        Location::new(40560001, 40560001),
        Location::new(33193611, 33193611),
        Location::new(41676388, 41676388),
        Location::new(41543056, 41543056),
        Location::new(39554443, 39554443),
        Location::new(44513332, 44513332),
        Location::new(37554169, 37554169),
        Location::new(32349998, 32349998),
        Location::new(29499722, 29499722),
        Location::new(33038334, 33038334),
        Location::new(43614166, 43614166),
        Location::new(41556110, 41556110),
        Location::new(34000000, 34000000),
        Location::new(26709723, 26709723),
        Location::new(38005001, 38005001),
        Location::new(35970554, 35970554),
        Location::new(25942122, 25942122),
        Location::new(33569443, 33569443),
        Location::new(39799999, 39799999),
        Location::new(34073334, 34073334),
        Location::new(40606388, 40606388),
        Location::new(30601389, 30601389),
        Location::new(38257778, 38257778),
        Location::new(37977222, 37977222),
        Location::new(42373611, 42373611),
        Location::new(32965557, 32965557),
        Location::new(37871666, 37871666),
        Location::new(38951561, 38951561),
        Location::new(33950001, 33950001),
        Location::new(30216667, 30216667),
        Location::new(42580276, 42580276),
        Location::new(36316666, 36316666),
        Location::new(37034946, 37034946),
        Location::new(40689167, 40689167),
        Location::new(33630554, 33630554),
        Location::new(39903057, 39903057),
        Location::new(25978889, 25978889),
        Location::new(35846111, 35846111),
        Location::new(34156113, 34156113),
        Location::new(41186390, 41186390),
        Location::new(40914745, 40914745),
        Location::new(42259445, 42259445),
        Location::new(41520557, 41520557),
        Location::new(33124722, 33124722),
        Location::new(39106667, 39106667),
        Location::new(42101391, 42101391),
        Location::new(37210388, 37210388),
        Location::new(33866669, 33866669),
        Location::new(26012501, 26012501),
        Location::new(38438332, 38438332),
        Location::new(33211666, 33211666),
        Location::new(37070831, 37070831),
        Location::new(43536388, 43536388),
        Location::new(45633331, 45633331),
        Location::new(42271389, 42271389),
        Location::new(30455000, 30455000),
        Location::new(32492222, 32492222),
        Location::new(33466667, 33466667),
        Location::new(32361668, 32361668),
        Location::new(41763889, 41763889),
        Location::new(35199165, 35199165),
        Location::new(37661388, 37661388),
        Location::new(32907223, 32907223),
        Location::new(33669445, 33669445),
        Location::new(39710835, 39710835),
        Location::new(32705002, 32705002),
        Location::new(39099724, 39099724),
        Location::new(35117500, 35117500),
        Location::new(39791000, 39791000),
        Location::new(39983334, 39983334),
        Location::new(30266666, 30266666),
        Location::new(32779167, 32779167),
        Location::new(37487846, 37487846),
        Location::new(35255280, 35255280),
        Location::new(29700001, 29700001),
        Location::new(26838619, 26838619),
        Location::new(38473625, 38473625),
        Location::new(29749907, 29749907),
        Location::new(40191891, 40191891),
        Location::new(33830517, 33830517),
        Location::new(34496212, 34496212),
        Location::new(37541290, 37541290),
        Location::new(36082157, 36082157),
        Location::new(32698437, 32698437),
        Location::new(33580944, 33580944),
        Location::new(33427204, 33427204),
        Location::new(34028622, 34028622),
        Location::new(32609856, 32609856),
        Location::new(33405746, 33405746),
        Location::new(34603817, 34603817),
        Location::new(44840797, 44840797),
        Location::new(71290558, 71290558),
    ]
}

#[derive(Clone, PartialEq)]
struct FakeUser {
    name: String,
    location: Location,
}

impl FakeUser {
    fn new(cities: &[Location]) -> FakeUser {
        let name: String = thread_rng()
            .sample_iter(&Alphanumeric)
            .take(30)
            .map(char::from)
            .collect();
        let location = *cities.choose(&mut thread_rng()).unwrap();
        FakeUser { name, location }
    }
}

impl User for FakeUser {
    fn location(&self) -> Location {
        self.location
    }
}

#[test]
fn test_geoshard_searcher() {
    let cities = city_list();
    let users: Vec<FakeUser> = (0..2000).map(|_| FakeUser::new(&cities)).collect();

    let geoshards = GeoshardBuilder::user_count_scorer(8, users.clone(), 40, 100)
        .build()
        .unwrap();
    let searcher = GeoshardSearcher::from(geoshards);

    let user_database = users.iter().fold(HashMap::new(), |mut database, user| {
        let shard = searcher.get_shard_for_user(user);
        database
            .entry(shard.name().to_string())
            .or_insert(Vec::new())
            .push(user.clone());
        database
    });

    for user in users.iter() {
        let shard = searcher.get_shard_for_user(user);
        let shard_collection = user_database
            .get(shard.name())
            .expect("cell_id not found in database");

        assert!(shard_collection.contains(user));
    }

    let _shards = searcher.shards();
}

#[test]
fn test_geoshard_properties() {
    let cities = city_list();
    let users: Vec<FakeUser> = (0..2000).map(|_| FakeUser::new(&cities)).collect();

    let geoshards = GeoshardBuilder::user_count_scorer(8, users, 40, 100)
        .build()
        .unwrap();

    assert_eq!(
        geoshards
            .shards()
            .iter()
            .map(|shard| shard.cell_count())
            .sum::<usize>(),
        393216
    );
}
