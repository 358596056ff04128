use city_spellcheck::{CityData, Coordinate, Country};

#[derive(Debug)]
struct City<'a> {
    name: &'a str,
    country: &'a str,
    region: &'a str,
    latitude: f32,
    longitude: f32,
}

fn city_of<'a>(cities: &'a CityData, idx: usize) -> City<'a> {
    let city = cities.get_city(idx);
    City {
        name: city.name,
        country: city.country,
        region: city.region,
        latitude: f32::from_bits(city.latitude),
        longitude: f32::from_bits(city.longitude),
    }
}

#[test]
fn test_citydata_struct_nyc() {
    let mut cities = CityData::new();
    cities.add_city("New York City", "US", "NY", 40.7128f32.to_bits(), 74.0060f32.to_bits());
    assert_eq!(format!("{:?}", city_of(&cities, 0)), "City { name: \"New York City\", country: \"US\", region: \"NY\", latitude: 40.7128, longitude: 74.006 }");
}

#[test]
fn test_citydata_struct_sf() {
    let mut cities = CityData::new();
    cities.add_city("San Francisco", "US", "CA", 37.7749f32.to_bits(), 122.4194f32.to_bits());
    assert_eq!(format!("{:?}", city_of(&cities, 0)), "City { name: \"San Francisco\", country: \"US\", region: \"CA\", latitude: 37.7749, longitude: 122.4194 }");
}

#[test]
fn new_store_is_empty() {
    let cities = CityData::new();
    assert_eq!(cities.len(), 0);
}

#[test]
fn places_keep_the_order_of_insertion() {
    let mut cities = CityData::new();
    cities.add_city("Abbotsford", "CA", "02", 49.05798f32.to_bits(), (-122.25257f32).to_bits());
    cities.add_city("London", "US", "KY", 37.12898f32.to_bits(), (-84.08326f32).to_bits());
    cities.add_city("London", "US", "OH", 39.88645f32.to_bits(), (-83.44825f32).to_bits());
    assert_eq!(cities.len(), 3);
    let first = cities.get_city(0);
    assert_eq!(first.name, "Abbotsford");
    assert_eq!(first.country, "CA");
    assert_eq!(first.region, "02");
    assert_eq!(f32::from_bits(first.latitude), 49.05798);
    assert_eq!(f32::from_bits(first.longitude), -122.25257);
    let second = cities.get_city(1);
    assert_eq!((second.name, second.region), ("London", "KY"));
    let third = cities.get_city(2);
    assert_eq!((third.name, third.region), ("London", "OH"));
    assert_eq!(third.coordinate().latitude, 39.88645f32.to_bits());
    assert_eq!(third.coordinate().longitude, (-83.44825f32).to_bits());
}

#[test]
fn coordinate_holds_what_it_was_given() {
    let c = Coordinate::new(7, 9);
    assert_eq!((c.latitude, c.longitude), (7, 9));
    let d = c;
    assert_eq!((d.latitude, d.longitude), (c.latitude, c.longitude));
}

#[test]
fn countries_are_two() {
    assert_eq!(format!("{:?}", Country::US), "US");
    assert_eq!(format!("{:?}", Country::CA), "CA");
}
