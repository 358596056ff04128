use city_spellcheck::score::score_from_distance;
use city_spellcheck::search::{rank, same_search};
use city_spellcheck::{CityData, Coordinate, FuzzyResult, Ratio, Score};
use distance::damerau_levenshtein;

#[derive(Debug)]
struct Suggestion {
    city: String,
    latitude: f32,
    longitude: f32,
    score: f32,
}

fn ratio(r: Ratio) -> f32 {
    r.num as f32 / r.den as f32
}

fn blend(score: Score) -> f32 {
    if score.similarity.num == 0 {
        return 0.0;
    }
    let str_score = ratio(score.similarity);
    let dist_score = match score.proximity {
        Some(p) => ratio(p),
        None => str_score,
    };
    (str_score * 5.0 + dist_score * 3.0) / 8.0
}

fn suggestion(result: &FuzzyResult) -> Suggestion {
    Suggestion {
        city: result.city.clone(),
        latitude: f32::from_bits(result.latitude),
        longitude: f32::from_bits(result.longitude),
        score: blend(result.score),
    }
}

fn suggestions(results: &[FuzzyResult]) -> Vec<Suggestion> {
    results.iter().map(suggestion).collect()
}

fn find_distance_earth(loc1: (f32, f32), loc2: (f32, f32)) -> f32 {
    const R: f32 = 6372.8;
    let (mut lat1, mut long1) = loc1;
    let (mut lat2, long2) = loc2;
    long1 -= long2;
    long1 = long1.to_radians();
    lat1 = lat1.to_radians();
    lat2 = lat2.to_radians();
    let dz: f32 = lat1.sin() - lat2.sin();
    let dx: f32 = long1.cos() * lat1.cos() - lat2.cos();
    let dy: f32 = long1.sin() * lat1.cos();
    ((dx * dx + dy * dy + dz * dz).sqrt() / 2.0).asin() * 2.0 * R
}

fn metres(km: f32) -> u32 {
    (km * 1000.0).round() as u32
}

fn distances(cities: &CityData, from: Coordinate) -> Vec<u32> {
    let from = (f32::from_bits(from.latitude), f32::from_bits(from.longitude));
    (0..cities.len())
        .map(|i| {
            let c = cities.get_city(i).coordinate();
            metres(find_distance_earth((f32::from_bits(c.latitude), f32::from_bits(c.longitude)), from))
        })
        .collect()
}

fn add(cities: &mut CityData, name: &str, country: &str, region: &str, latitude: f32, longitude: f32) {
    cities.add_city(name, country, region, latitude.to_bits(), longitude.to_bits());
}

fn londons() -> CityData {
    let mut cities = CityData::new();
    add(&mut cities, "London", "CA", "08", 42.98339, -81.23304);
    add(&mut cities, "London", "US", "KY", 37.12898, -84.08326);
    add(&mut cities, "London", "US", "OH", 39.88645, -83.44825);
    add(&mut cities, "Logan", "US", "OH", 39.54007, -82.4071);
    cities
}

fn full(num: u64, den: u64) -> Score {
    Score { similarity: Ratio { num, den }, proximity: None }
}

fn near(num: u64, den: u64, proximity: Ratio) -> Score {
    Score { similarity: Ratio { num, den }, proximity: Some(proximity) }
}

#[test]
fn test_str_dist() {
    assert_eq!(damerau_levenshtein("Londo", "London"), 1);
}

#[test]
fn test_dist_score() {
    assert_eq!(ratio(CityData::dist_score(4_135_694)), 0.000023607116);
}

#[test]
fn test_total_score_no_gps() {
    let mut cities = CityData::new();
    add(&mut cities, "Abbotsford", "CA", "02", 49.05798, -122.25257);
    assert_eq!(blend(cities.total_score("Abbotsfor", 0, None)), 0.88888896);
}

#[test]
fn test_search_with_gps() {
    let cities = londons();
    let london = Coordinate::new(42.98339f32.to_bits(), (-81.23304f32).to_bits());
    let from_london = distances(&cities, london);
    let results = cities.search("London", Some(&from_london));
    assert_eq!(format!("{:?}", suggestions(&results)).replace("Suggestion", "FuzzyResult"), "[FuzzyResult { city: \"London, 08, CA\", latitude: 42.98339, longitude: -81.23304, score: 1.0 }, FuzzyResult { city: \"London, OH, US\", latitude: 39.88645, longitude: -83.44825, score: 1.0 }, FuzzyResult { city: \"Logan, OH, US\", latitude: 39.54007, longitude: -82.4071, score: 0.6875 }]");
}

#[test]
fn search_without_location_keeps_exact_names() {
    let cities = londons();
    let results = cities.search("London", None);
    let labels: Vec<&str> = results.iter().map(|r| r.city.as_str()).collect();
    assert_eq!(labels, vec!["London, 08, CA", "London, KY, US", "London, OH, US"]);
    for r in &results {
        assert_eq!(r.score, full(6, 6));
        assert_eq!(blend(r.score), 1.0);
    }
}

#[test]
fn search_with_location_lets_a_near_place_in() {
    let cities = londons();
    let results = cities.search("London", Some(&vec![0, 694_788, 390_827, 395_355]));
    assert_eq!(results.len(), 3);
    assert_eq!(results[0].city, "London, 08, CA");
    assert_eq!(results[0].score, near(6, 6, Ratio { num: 1, den: 1 }));
    assert_eq!(results[1].city, "London, OH, US");
    assert_eq!(results[1].latitude, 39.88645f32.to_bits());
    assert_eq!(results[1].longitude, (-83.44825f32).to_bits());
    assert_eq!(results[2].city, "Logan, OH, US");
    assert_eq!(results[2].score, near(3, 6, Ratio { num: 1, den: 1 }));
}

#[test]
fn search_output_is_sorted_and_above_threshold() {
    let mut cities = londons();
    add(&mut cities, "Londonderry", "US", "NH", 42.86509, -71.37395);
    add(&mut cities, "Londo", "US", "XX", 42.0, -81.0);
    add(&mut cities, "Lonndon", "US", "YY", 42.0, -81.0);
    let given = vec![0, 694_788, 390_827, 395_355, 401_000, 400_001, 399_999];
    for distances in [None, Some(&given)] {
        let results = cities.search("London", distances);
        assert!(!results.is_empty());
        for r in &results {
            assert!(r.score.passes());
            assert!(blend(r.score) > 0.65);
        }
        for pair in results.windows(2) {
            assert!(!pair[1].score.outranks(&pair[0].score));
            assert!(blend(pair[0].score) >= blend(pair[1].score));
        }
    }
}

#[test]
fn search_twice_gives_the_same() {
    let cities = londons();
    let given = vec![0, 694_788, 390_827, 395_355];
    let first = cities.search("London", Some(&given));
    let second = cities.search("London", Some(&given));
    assert_eq!(format!("{:?}", first), format!("{:?}", second));
    let first = cities.search("Lon", None);
    let second = cities.search("Lon", None);
    assert_eq!(format!("{:?}", first), format!("{:?}", second));
}

#[test]
fn search_for_nothing_finds_nothing() {
    let cities = londons();
    assert!(cities.search("", None).is_empty());
    assert!(cities.search("Zzyzx", None).is_empty());
    assert!(CityData::new().search("London", None).is_empty());
    assert!(CityData::new().search("London", Some(&vec![])).is_empty());
}

#[test]
fn longer_query_can_still_be_similar() {
    let cities = londons();
    let results = cities.search("Londonn", None);
    assert_eq!(results.len(), 3);
    assert_eq!(results[0].score, full(6, 7));
}

#[test]
fn total_score_follows_the_edit_distance() {
    let cities = londons();
    assert_eq!(cities.total_score("London", 0, None), full(6, 6));
    assert_eq!(cities.total_score("London", 3, None), full(3, 6));
    assert_eq!(cities.total_score("Londno", 0, None), full(5, 6));
    assert_eq!(cities.total_score("Paris", 0, None), full(0, 1));
    assert_eq!(cities.total_score("", 0, None), full(0, 1));
    assert_eq!(cities.total_score("London", 3, Some(10)), near(3, 6, Ratio { num: 1, den: 1 }));
    assert_eq!(cities.total_score("Paris", 0, Some(10)), full(0, 1));
}

#[test]
fn query_length_is_counted_in_bytes() {
    let mut cities = CityData::new();
    add(&mut cities, "Montréal", "CA", "10", 45.50884, -73.58781);
    assert_eq!(cities.total_score("Montréal", 0, None), full(9, 9));
    assert_eq!(cities.total_score("Montreal", 0, None), full(7, 8));
}

#[test]
fn similarity_is_the_unedited_share() {
    assert_eq!(score_from_distance(1, 9, None), full(8, 9));
    assert_eq!(score_from_distance(0, 6, None), full(6, 6));
    assert_eq!(score_from_distance(6, 6, None), full(0, 1));
    assert_eq!(score_from_distance(7, 6, Some(5)), full(0, 1));
    assert_eq!(score_from_distance(0, 0, None), full(0, 1));
    assert_eq!(
        score_from_distance(2, 6, Some(500_000)),
        near(4, 6, Ratio { num: 400_000_000, den: 90_079_990_000 })
    );
}

#[test]
fn proximity_is_one_below_400_km() {
    assert_eq!(CityData::dist_score(0), Ratio { num: 1, den: 1 });
    assert_eq!(CityData::dist_score(399_999), Ratio { num: 1, den: 1 });
}

#[test]
fn proximity_falls_from_400_km_on() {
    assert_eq!(CityData::dist_score(400_000), Ratio { num: 400_000_000, den: 79_990_000 });
    assert_eq!(CityData::dist_score(1_000_000), Ratio { num: 400_000_000, den: 840_079_990_000 });
    assert_eq!(
        CityData::dist_score(u32::MAX),
        Ratio { num: 400_000_000, den: 18_446_743_905_199_607_025 }
    );
    let mut last = CityData::dist_score(400_000);
    for d in [400_001, 400_500, 407_000, 500_000, 20_000_000, u32::MAX] {
        let next = CityData::dist_score(d);
        assert!((last.num as u128) * (next.den as u128) > (next.num as u128) * (last.den as u128));
        last = next;
    }
}

#[test]
fn threshold_is_thirteen_twentieths() {
    assert!(!full(13, 20).passes());
    assert!(full(14, 20).passes());
    assert!(full(66, 100).passes());
    assert!(!full(65, 100).passes());
    assert!(!full(0, 1).passes());
    assert!(full(1, 1).passes());
    let one = Ratio { num: 1, den: 1 };
    // (5 * 7/25 + 3) / 8 = 11/20, (5 * 11/25 + 3) / 8 = 13/20, (5 * 12/25 + 3) / 8 = 27/40
    assert!(!near(7, 25, one).passes());
    assert!(!near(11, 25, one).passes());
    assert!(near(12, 25, one).passes());
    // proximity 1/15 with similarity 1 gives exactly 13/20
    assert!(!near(1, 1, Ratio { num: 1, den: 15 }).passes());
    assert!(near(1, 1, Ratio { num: 2, den: 29 }).passes());
    assert!(!near(1, 1, CityData::dist_score(500_000)).passes());
    assert!(near(1, 1, CityData::dist_score(407_000)).passes());
    assert!(!near(u64::MAX, u64::MAX, CityData::dist_score(u32::MAX)).passes());
    assert!(near(u64::MAX, u64::MAX, CityData::dist_score(400_000)).passes());
}

#[test]
fn scores_are_compared_exactly() {
    assert!(full(6, 7).outranks(&full(5, 7)));
    assert!(!full(5, 7).outranks(&full(6, 7)));
    assert!(!full(5, 7).outranks(&full(5, 7)));
    let one = Ratio { num: 1, den: 1 };
    assert!(near(6, 6, one).outranks(&near(3, 6, one)));
    assert!(!near(3, 6, one).outranks(&near(6, 6, one)));
    assert!(!near(3, 6, one).outranks(&near(3, 6, one)));
    assert!(near(3, 6, CityData::dist_score(400_000)).outranks(&near(6, 6, one)));
    assert!(near(6, 6, CityData::dist_score(400_001)).outranks(&near(6, 6, CityData::dist_score(400_002))));
    assert!(!near(6, 6, CityData::dist_score(400_002)).outranks(&near(6, 6, CityData::dist_score(400_001))));
    // 5 * 2/3 + 3 * 1/3 = 13/3 on both sides
    assert!(!near(2, 3, Ratio { num: 1, den: 3 }).outranks(&near(2, 3, Ratio { num: 2, den: 6 })));
    assert!(!near(2, 3, Ratio { num: 2, den: 6 }).outranks(&near(2, 3, Ratio { num: 1, den: 3 })));
    // 5 * 1/3 + 3 * 2/3 = 11/3 against 5 * 2/3 + 3 * 1/9 = 11/3
    assert!(!near(1, 3, Ratio { num: 2, den: 3 }).outranks(&near(2, 3, Ratio { num: 1, den: 9 })));
    assert!(near(1, 3, Ratio { num: 3, den: 4 }).outranks(&near(2, 3, Ratio { num: 1, den: 9 })));
    let big = u64::MAX;
    assert!(near(big, big, CityData::dist_score(u32::MAX - 1)).outranks(&near(big, big, CityData::dist_score(u32::MAX))));
    assert!(near(big, big, CityData::dist_score(u32::MAX)).outranks(&near(big - 1, big, CityData::dist_score(u32::MAX))));
}

#[test]
fn ranking_orders_by_score_then_index() {
    let scores = vec![full(7, 10), full(6, 10), full(9, 10), full(7, 10), full(0, 1), full(10, 10)];
    let found = rank(&scores);
    let order: Vec<usize> = found.iter().map(|e| e.0).collect();
    assert_eq!(order, vec![5, 2, 0, 3]);
    assert_eq!(found[1].1, full(9, 10));
    assert!(rank(&vec![]).is_empty());
    assert!(rank(&vec![full(1, 2), full(0, 1)]).is_empty());
}

#[test]
fn scores_of_one_search_are_told_apart() {
    let one = Ratio { num: 1, den: 1 };
    assert!(same_search(&vec![]));
    assert!(same_search(&vec![full(0, 1), full(0, 1)]));
    assert!(same_search(&vec![full(3, 6), full(0, 1), full(6, 6)]));
    assert!(same_search(&vec![near(3, 6, one), full(0, 1), near(6, 6, CityData::dist_score(500_000))]));
    assert!(!same_search(&vec![full(3, 6), full(3, 7)]));
    assert!(!same_search(&vec![full(3, 6), near(3, 6, one)]));
    assert!(!same_search(&vec![near(3, 6, one), full(0, 1), full(3, 6)]));
    assert!(!same_search(&vec![full(7, 6)]));
    assert!(!same_search(&vec![full(0, 0)]));
    assert!(!same_search(&vec![near(3, 6, Ratio { num: 1, den: 0 })]));
    assert!(!same_search(&vec![near(3, 6, Ratio { num: 400_000_001, den: 1 })]));
    assert!(full(3, 6).is_wf());
    assert!(!full(1, 0).is_wf());
    assert!(full(3, 6).is_comparable(&full(1, 6)));
    assert!(!full(3, 6).is_comparable(&full(0, 6)));
}

#[test]
fn given_scores_rank_the_places() {
    let cities = londons();
    let scores = vec![full(4, 6), full(6, 6), full(3, 6), full(6, 6)];
    let results = cities.ranked_results(&scores);
    let labels: Vec<&str> = results.iter().map(|r| r.city.as_str()).collect();
    assert_eq!(labels, vec!["London, KY, US", "Logan, OH, US", "London, 08, CA"]);
    assert_eq!(results[2].score, full(4, 6));
    assert_eq!(results[0].latitude, 37.12898f32.to_bits());
    let scored: Vec<Score> = (0..cities.len()).map(|i| cities.total_score("London", i, None)).collect();
    assert_eq!(
        format!("{:?}", cities.ranked_results(&scored)),
        format!("{:?}", cities.search("London", None))
    );
    assert_eq!(cities.score_all("London", None), scored);
}
