//! What a request for suggestions must hold.

use vstd::prelude::*;
use crate::store::Coordinate;

verus! {

/// A request names one half of a location only.
#[derive(Debug, Clone, Copy, PartialEq, Eq)]
pub enum LocationError {
    /// A latitude came without a longitude.
    MissingLongitude,
    /// A longitude came without a latitude.
    MissingLatitude,
}

impl LocationError {
    /// The message that the requester is sent.
    pub fn message(&self) -> (text: &'static str)
        ensures
            *self == LocationError::MissingLongitude ==> text@
                == "If you supply latitude you must also supply longitude!"@,
            *self == LocationError::MissingLatitude ==> text@
                == "If you supply longitude you must also supply latitude!"@,
    {
        match self {
            LocationError::MissingLongitude => {
                "If you supply latitude you must also supply longitude!"
            },
            LocationError::MissingLatitude => {
                "If you supply longitude you must also supply latitude!"
            },
        }
    }
}

/// The location of a request: latitude and longitude come together or not
/// at all.
pub fn location_of(latitude: Option<u32>, longitude: Option<u32>) -> (r: Result<
    Option<Coordinate>,
    LocationError,
>)
    ensures
        match (latitude, longitude) {
            (Some(lat), Some(long)) => r matches Ok(Some(c)) && c.latitude == lat && c.longitude
                == long,
            (Some(_), None) => r == Err::<Option<Coordinate>, LocationError>(
                LocationError::MissingLongitude,
            ),
            (None, Some(_)) => r == Err::<Option<Coordinate>, LocationError>(
                LocationError::MissingLatitude,
            ),
            (None, None) => r == Ok::<Option<Coordinate>, LocationError>(None),
        },
{
    match latitude {
        Some(lat) => match longitude {
            Some(long) => Ok(Some(Coordinate::new(lat, long))),
            None => Err(LocationError::MissingLongitude),
        },
        None => match longitude {
            Some(_) => Err(LocationError::MissingLatitude),
            None => Ok(None),
        },
    }
}

} // verus!
