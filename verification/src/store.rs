//! The place store: a table of places held column by column.

use vstd::prelude::*;

verus! {

/// The countries of the gazetteer.
#[derive(Debug, Copy, Clone)]
pub enum Country {
    US,
    CA,
}

/// A position on the globe. Latitude and longitude are degrees, each held
/// as the bit pattern of an IEEE 754 single-precision number; the store
/// hands them on and never computes with them.
#[derive(Debug, Copy, Clone)]
pub struct Coordinate {
    pub latitude: u32,
    pub longitude: u32,
}

impl Coordinate {
    /// The position at the given latitude and longitude.
    pub fn new(latitude: u32, longitude: u32) -> (c: Coordinate)
        ensures
            c.latitude == latitude,
            c.longitude == longitude,
    {
        Coordinate { latitude, longitude }
    }
}

/// One place, as the store's model holds it.
pub struct PlaceRecord {
    pub name: Seq<char>,
    pub country: Seq<char>,
    pub region: Seq<char>,
    pub latitude: u32,
    pub longitude: u32,
}

/// One place of the store, borrowed from it.
#[derive(Debug)]
pub struct City<'a> {
    pub name: &'a str,
    pub country: &'a str,
    pub region: &'a str,
    pub latitude: u32,
    pub longitude: u32,
}

impl<'a> City<'a> {
    /// The record that the view stands for.
    pub open spec fn record(self) -> PlaceRecord {
        PlaceRecord {
            name: self.name@,
            country: self.country@,
            region: self.region@,
            latitude: self.latitude,
            longitude: self.longitude,
        }
    }

    /// Where the place lies.
    pub fn coordinate(&self) -> (c: Coordinate)
        ensures
            c.latitude == self.latitude,
            c.longitude == self.longitude,
    {
        Coordinate::new(self.latitude, self.longitude)
    }
}

/// The places, one column per field. Index `i` of every column belongs to
/// the same place.
#[derive(Debug)]
pub struct CityData {
    pub(crate) names: Vec<String>,
    pub(crate) countries: Vec<String>,
    pub(crate) regions: Vec<String>,
    pub(crate) latitudes: Vec<u32>,
    pub(crate) longitudes: Vec<u32>,
}

impl View for CityData {
    type V = Seq<PlaceRecord>;

    closed spec fn view(&self) -> Seq<PlaceRecord> {
        Seq::new(
            self.names@.len(),
            |i: int|
                PlaceRecord {
                    name: self.names@[i]@,
                    country: self.countries@[i]@,
                    region: self.regions@[i]@,
                    latitude: self.latitudes@[i],
                    longitude: self.longitudes@[i],
                },
        )
    }
}

impl CityData {
    /// The five columns have the same length.
    #[verifier::type_invariant]
    pub closed spec fn wf(&self) -> bool {
        &&& self.countries@.len() == self.names@.len()
        &&& self.regions@.len() == self.names@.len()
        &&& self.latitudes@.len() == self.names@.len()
        &&& self.longitudes@.len() == self.names@.len()
    }

    /// An empty store.
    pub fn new() -> (store: Self)
        ensures
            store@ == Seq::<PlaceRecord>::empty(),
    {
        let store = CityData {
            names: Vec::new(),
            countries: Vec::new(),
            regions: Vec::new(),
            latitudes: Vec::new(),
            longitudes: Vec::new(),
        };
        assert(store@ =~= Seq::<PlaceRecord>::empty());
        store
    }

    /// The number of places.
    pub fn len(&self) -> (n: usize)
        ensures
            n == self@.len(),
    {
        self.names.len()
    }

    /// Appends one place to the store.
    pub fn add_city(
        &mut self,
        name: &str,
        country: &str,
        region: &str,
        latitude: u32,
        longitude: u32,
    )
        ensures
            final(self)@ == old(self)@.push(
                PlaceRecord { name: name@, country: country@, region: region@, latitude, longitude },
            ),
    {
        proof {
            use_type_invariant(&*self);
        }
        let mut taken = CityData::new();
        core::mem::swap(self, &mut taken);
        let CityData { mut names, mut countries, mut regions, mut latitudes, mut longitudes } =
            taken;
        names.push(name.to_owned());
        countries.push(country.to_owned());
        regions.push(region.to_owned());
        latitudes.push(latitude);
        longitudes.push(longitude);
        *self = CityData { names, countries, regions, latitudes, longitudes };
        assert(self@ =~= old(self)@.push(
            PlaceRecord { name: name@, country: country@, region: region@, latitude, longitude },
        ));
    }

    /// The place at index `idx`.
    pub fn get_city(&self, idx: usize) -> (city: City<'_>)
        requires
            idx < self@.len(),
        ensures
            city.record() == self@[idx as int],
    {
        proof {
            use_type_invariant(self);
        }
        City {
            name: self.names[idx].as_str(),
            country: self.countries[idx].as_str(),
            region: self.regions[idx].as_str(),
            latitude: self.latitudes[idx],
            longitude: self.longitudes[idx],
        }
    }
}

} // verus!
