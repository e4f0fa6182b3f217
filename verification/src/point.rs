//! Input points and their spatial-query encoding.

use vstd::prelude::*;
use vstd::string::*;

verus! {

/// One input coordinate, as read from the input table. Latitude and
/// longitude are carried in their decimal text form; the remote service is
/// the source of truth for rejecting out-of-range values.
#[derive(Clone)]
pub struct Point {
    pub point_id: String,
    pub lat: String,
    pub long: String,
}

/// The spatial-query payload for a coordinate pair: an ArcGIS point
/// geometry in WGS84 (WKID 4326).
pub open spec fn geometry_spec(long: Seq<char>, lat: Seq<char>) -> Seq<char> {
    "{'x': "@ + long + ", 'y': "@ + lat + ", 'spatialReference': {'wkid': 4326}}"@
}

impl Point {
    /// Encodes this point as the service's geometry query parameter.
    pub fn to_json_geometry(&self) -> (r: String)
        ensures
            r@ == geometry_spec(self.long@, self.lat@),
    {
        let mut s = String::new();
        s.append("{'x': ");
        s.append(self.long.as_str());
        s.append(", 'y': ");
        s.append(self.lat.as_str());
        s.append(", 'spatialReference': {'wkid': 4326}}");
        proof {
            assert(s@ =~= geometry_spec(self.long@, self.lat@));
        }
        s
    }
}

} // verus!
