//! The identify request's query parameters: a fixed, deterministic set for
//! one point.

use vstd::prelude::*;
use vstd::string::*;
use crate::point::{geometry_spec, Point};

verus! {

/// Builds the seven query parameters of an identify request for one point,
/// in a fixed order.
pub fn identify_query_params(point: &Point) -> (params: Vec<(String, String)>)
    ensures
        params@.len() == 7,
        params@[0].0@ == "geometry"@ && params@[0].1@ == geometry_spec(
            point.long@,
            point.lat@,
        ),
        params@[1].0@ == "geometryType"@ && params@[1].1@ == "esriGeometryPoint"@,
        params@[2].0@ == "returnGeometry"@ && params@[2].1@ == "false"@,
        params@[3].0@ == "returnCatalogItems"@ && params@[3].1@ == "true"@,
        params@[4].0@ == "returnPixelValues"@ && params@[4].1@ == "true"@,
        params@[5].0@ == "processAsMultiDimensional"@ && params@[5].1@ == "false"@,
        params@[6].0@ == "f"@ && params@[6].1@ == "json"@,
{
    let mut params: Vec<(String, String)> = Vec::new();
    params.push(("geometry".to_owned(), point.to_json_geometry()));
    params.push(("geometryType".to_owned(), "esriGeometryPoint".to_owned()));
    params.push(("returnGeometry".to_owned(), "false".to_owned()));
    params.push(("returnCatalogItems".to_owned(), "true".to_owned()));
    params.push(("returnPixelValues".to_owned(), "true".to_owned()));
    params.push(("processAsMultiDimensional".to_owned(), "false".to_owned()));
    params.push(("f".to_owned(), "json".to_owned()));
    params
}

} // verus!
