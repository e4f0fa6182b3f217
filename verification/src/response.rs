//! The identify response schema and its flattening into tabular rows.
//!
//! The wire schema is nested and almost every attribute is optional; the
//! flattener turns one response into one row per raster slice, deriving
//! local-zoned timestamps for the two epoch-millisecond fields.

use vstd::prelude::*;
use vstd::string::*;
use crate::numfmt::{dec_str, u64_to_dec_chars};
use crate::point::Point;
use crate::text::string_of;
use crate::timefmt::{epoch_ms_to_la_iso, ms_iso_spec};

verus! {

/// The spatial reference of the response's location echo.
pub struct SpatialReference {
    pub wkid: u32,
    pub latest_wkid: u32,
}

/// The queried location as echoed by the service, in decimal text form.
pub struct Location {
    pub x: String,
    pub y: String,
    pub spatial_reference: SpatialReference,
}

/// The pixel-value container of the response.
pub struct Properties {
    pub values: Vec<String>,
}

/// Per-raster-slice metadata. The service guarantees presence of none of
/// these, so every field is optional; numeric text fields carry the
/// service's decimal rendering.
pub struct Attributes {
    pub category: Option<u32>,
    pub centerx: Option<String>,
    pub centery: Option<String>,
    pub groupname: Option<String>,
    pub highps: Option<String>,
    pub idp_current_forecast: Option<u32>,
    pub idp_fcst_hour: Option<u32>,
    pub idp_filedate: Option<u64>,
    pub idp_grb_elem: Option<String>,
    pub idp_grb_level: Option<String>,
    pub idp_ingestdate: Option<u64>,
    pub idp_issueddate: Option<u64>,
    pub idp_source: Option<String>,
    pub idp_subset: Option<String>,
    pub idp_time_series: Option<u32>,
    pub idp_validendtime: Option<u64>,
    pub idp_validtime: Option<u64>,
    pub lowps: Option<String>,
    pub maxps: Option<String>,
    pub minps: Option<String>,
    pub name: Option<String>,
    pub objectid: Option<u32>,
    pub productname: Option<String>,
    pub st_area_shape_: Option<String>,
    pub tag: Option<String>,
    pub zorder: Option<String>,
}

/// One raster slice of the catalog.
pub struct Feature {
    pub attributes: Attributes,
}

/// The catalog of raster slices contributing pixel values.
pub struct CatalogItems {
    pub features: Vec<Feature>,
}

/// The structured identify response body.
pub struct ResponseBody {
    pub object_id: u32,
    pub name: String,
    pub value: String,
    pub location: Location,
    pub properties: Properties,
    pub catalog_items: CatalogItems,
    pub catalog_item_visibilities: Vec<u8>,
}

/// One remote call's outcome: the point requested, when it was requested,
/// the resolved request URL, and the response body.
pub struct IdentifyResponse {
    pub point: Point,
    pub requested_on: String,
    pub url: String,
    pub body: ResponseBody,
}

/// How a flattening can fail.
#[derive(Clone, Copy, Debug, PartialEq, Eq, Structural)]
pub enum FlattenError {
    /// The pixel-value list and the raster-slice list differ in length.
    SchemaInvariant,
    /// An epoch-millisecond field lies outside the representable range.
    TimestampRange,
}

/// The text of an optional text field: empty when absent.
pub open spec fn opt_text(o: Option<String>) -> Seq<char> {
    match o {
        Option::Some(s) => s@,
        Option::None => Seq::<char>::empty(),
    }
}

/// The decimal text of an optional small number: empty when absent.
pub open spec fn opt_u32_text(o: Option<u32>) -> Seq<char> {
    match o {
        Option::Some(n) => dec_str(n as nat),
        Option::None => Seq::<char>::empty(),
    }
}

/// The decimal text of an optional epoch-millisecond field: empty when
/// absent.
pub open spec fn opt_u64_text(o: Option<u64>) -> Seq<char> {
    match o {
        Option::Some(n) => dec_str(n as nat),
        Option::None => Seq::<char>::empty(),
    }
}

/// Whether an optional epoch-millisecond field can be rendered as a
/// local-zoned timestamp.
pub open spec fn opt_ts_ok(o: Option<u64>) -> bool {
    match o {
        Option::Some(ms) => ms_iso_spec(ms) is Some,
        Option::None => true,
    }
}

/// The derived local-zoned ISO-8601 text of an optional epoch-millisecond
/// field: empty when absent.
pub open spec fn opt_ts_text(o: Option<u64>) -> Seq<char>
    recommends
        opt_ts_ok(o),
{
    match o {
        Option::Some(ms) => match ms_iso_spec(ms) {
            Option::Some(s) => s,
            Option::None => Seq::<char>::empty(),
        },
        Option::None => Seq::<char>::empty(),
    }
}

/// Whether both timestamp fields of a slice can be rendered.
pub open spec fn attrs_ts_ok(a: Attributes) -> bool {
    opt_ts_ok(a.idp_issueddate) && opt_ts_ok(a.idp_validtime)
}

/// The flat row for one raster slice: the point's fields, the two derived
/// timestamps, the pixel value, the request metadata, and every attribute
/// field passed through with empty text for absence.
pub open spec fn flat_row(
    point: Point,
    requested_on: Seq<char>,
    url: Seq<char>,
    value: Seq<char>,
    a: Attributes,
) -> Seq<Seq<char>> {
    seq![
        point.point_id@,
        point.lat@,
        point.long@,
        opt_ts_text(a.idp_issueddate),
        opt_ts_text(a.idp_validtime),
        value,
        requested_on,
        url,
        opt_u32_text(a.category),
        opt_text(a.centerx),
        opt_text(a.centery),
        opt_text(a.groupname),
        opt_text(a.highps),
        opt_u32_text(a.idp_current_forecast),
        opt_u32_text(a.idp_fcst_hour),
        opt_u64_text(a.idp_filedate),
        opt_text(a.idp_grb_elem),
        opt_text(a.idp_grb_level),
        opt_u64_text(a.idp_ingestdate),
        opt_u64_text(a.idp_issueddate),
        opt_text(a.idp_source),
        opt_text(a.idp_subset),
        opt_u32_text(a.idp_time_series),
        opt_u64_text(a.idp_validendtime),
        opt_u64_text(a.idp_validtime),
        opt_text(a.lowps),
        opt_text(a.maxps),
        opt_text(a.minps),
        opt_text(a.name),
        opt_u32_text(a.objectid),
        opt_text(a.productname),
        opt_text(a.st_area_shape_),
        opt_text(a.tag),
        opt_text(a.zorder),
    ]
}

/// The rows of a whole response, one per raster slice, in slice order.
pub open spec fn flat_rows_of(r: IdentifyResponse) -> Seq<Seq<Seq<char>>> {
    Seq::new(
        r.body.properties.values@.len(),
        |i: int|
            flat_row(
                r.point,
                r.requested_on@,
                r.url@,
                r.body.properties.values@[i]@,
                r.body.catalog_items.features@[i].attributes,
            ),
    )
}

/// The combined table's column names, in row-field order.
pub open spec fn header_row() -> Seq<Seq<char>> {
    seq![
        "point_id"@,
        "lat"@,
        "long"@,
        "idp_issueddate_iso"@,
        "idp_validtime_iso"@,
        "value"@,
        "requested_on"@,
        "url"@,
        "category"@,
        "centerx"@,
        "centery"@,
        "groupname"@,
        "highps"@,
        "idp_current_forecast"@,
        "idp_fcst_hour"@,
        "idp_filedate"@,
        "idp_grb_elem"@,
        "idp_grb_level"@,
        "idp_ingestdate"@,
        "idp_issueddate"@,
        "idp_source"@,
        "idp_subset"@,
        "idp_time_series"@,
        "idp_validendtime"@,
        "idp_validtime"@,
        "lowps"@,
        "maxps"@,
        "minps"@,
        "name"@,
        "objectid"@,
        "productname"@,
        "st_area_shape_"@,
        "tag"@,
        "zorder"@,
    ]
}

/// Builds the combined table's header row.
pub fn header_row_exec() -> (r: Vec<String>)
    ensures
        r.deep_view() == header_row(),
{
    let mut v: Vec<String> = Vec::new();
    v.push("point_id".to_owned());
    v.push("lat".to_owned());
    v.push("long".to_owned());
    v.push("idp_issueddate_iso".to_owned());
    v.push("idp_validtime_iso".to_owned());
    v.push("value".to_owned());
    v.push("requested_on".to_owned());
    v.push("url".to_owned());
    v.push("category".to_owned());
    v.push("centerx".to_owned());
    v.push("centery".to_owned());
    v.push("groupname".to_owned());
    v.push("highps".to_owned());
    v.push("idp_current_forecast".to_owned());
    v.push("idp_fcst_hour".to_owned());
    v.push("idp_filedate".to_owned());
    v.push("idp_grb_elem".to_owned());
    v.push("idp_grb_level".to_owned());
    v.push("idp_ingestdate".to_owned());
    v.push("idp_issueddate".to_owned());
    v.push("idp_source".to_owned());
    v.push("idp_subset".to_owned());
    v.push("idp_time_series".to_owned());
    v.push("idp_validendtime".to_owned());
    v.push("idp_validtime".to_owned());
    v.push("lowps".to_owned());
    v.push("maxps".to_owned());
    v.push("minps".to_owned());
    v.push("name".to_owned());
    v.push("objectid".to_owned());
    v.push("productname".to_owned());
    v.push("st_area_shape_".to_owned());
    v.push("tag".to_owned());
    v.push("zorder".to_owned());
    proof {
        assert(v.deep_view() =~= header_row());
    }
    v
}

fn opt_text_exec(o: &Option<String>) -> (r: String)
    ensures
        r@ == opt_text(*o),
{
    match o {
        Option::Some(s) => s.clone(),
        Option::None => String::new(),
    }
}

fn opt_u32_text_exec(o: &Option<u32>) -> (r: String)
    ensures
        r@ == opt_u32_text(*o),
{
    match o {
        Option::Some(n) => {
            let digits = u64_to_dec_chars(*n as u64);
            string_of(&digits)
        },
        Option::None => String::new(),
    }
}

fn opt_u64_text_exec(o: &Option<u64>) -> (r: String)
    ensures
        r@ == opt_u64_text(*o),
{
    match o {
        Option::Some(n) => {
            let digits = u64_to_dec_chars(*n);
            string_of(&digits)
        },
        Option::None => String::new(),
    }
}

fn opt_ts_text_exec(o: &Option<u64>) -> (r: Option<String>)
    ensures
        r is Some <==> opt_ts_ok(*o),
        r matches Some(s) ==> s@ == opt_ts_text(*o),
        r matches Some(s) ==> (s@.len() == 0 <==> o is None),
{
    match o {
        Option::Some(ms) => match epoch_ms_to_la_iso(*ms) {
            Option::Some(s) => Option::Some(s),
            Option::None => Option::None,
        },
        Option::None => Option::Some(String::new()),
    }
}

impl IdentifyResponse {
    /// Flattens this response into one row per raster slice, in slice
    /// order. Fails when the pixel-value and raster-slice lists differ in
    /// length, or when an epoch-millisecond field cannot be rendered.
    pub fn flatten(&self) -> (r: Result<Vec<Vec<String>>, FlattenError>)
        ensures
            r is Ok <==> (self.body.properties.values@.len()
                == self.body.catalog_items.features@.len() && (forall|i: int|
                0 <= i < self.body.catalog_items.features@.len() ==> attrs_ts_ok(
                    #[trigger] self.body.catalog_items.features@[i].attributes,
                ))),
            r matches Err(e) ==> (e is SchemaInvariant <==> self.body.properties.values@.len()
                != self.body.catalog_items.features@.len()),
            r matches Ok(rows) ==> rows.deep_view() == flat_rows_of(*self),
            r matches Ok(rows) ==> forall|i: int|
                0 <= i < rows@.len() ==> ((#[trigger] rows.deep_view()[i])[3].len() == 0
                    <==> self.body.catalog_items.features@[i].attributes.idp_issueddate
                    is None) && (rows.deep_view()[i][4].len() == 0
                    <==> self.body.catalog_items.features@[i].attributes.idp_validtime is None),
    {
        let values = &self.body.properties.values;
        let feats = &self.body.catalog_items.features;
        if values.len() != feats.len() {
            return Err(FlattenError::SchemaInvariant);
        }
        let ghost target = flat_rows_of(*self);
        let mut rows: Vec<Vec<String>> = Vec::new();
        let mut i: usize = 0;
        while i < values.len()
            invariant
                i <= values.len(),
                values == &self.body.properties.values,
                feats == &self.body.catalog_items.features,
                values@.len() == feats@.len(),
                target == flat_rows_of(*self),
                rows.len() == i,
                forall|k: int| 0 <= k < i ==> rows.deep_view()[k] == target[k],
                forall|k: int|
                    0 <= k < i ==> attrs_ts_ok(#[trigger] feats@[k].attributes),
                forall|k: int|
                    0 <= k < i ==> ((#[trigger] rows.deep_view()[k])[3].len() == 0
                        <==> feats@[k].attributes.idp_issueddate is None) && (
                    rows.deep_view()[k][4].len() == 0 <==> feats@[k].attributes.idp_validtime
                        is None),
            decreases values.len() - i,
        {
            let a = &feats[i].attributes;
            let issued_iso = match opt_ts_text_exec(&a.idp_issueddate) {
                Option::Some(s) => s,
                Option::None => {
                    return Err(FlattenError::TimestampRange);
                },
            };
            let valid_iso = match opt_ts_text_exec(&a.idp_validtime) {
                Option::Some(s) => s,
                Option::None => {
                    return Err(FlattenError::TimestampRange);
                },
            };
            let ghost issued_view = issued_iso@;
            let ghost valid_view = valid_iso@;
            let mut row: Vec<String> = Vec::new();
            row.push(self.point.point_id.clone());
            row.push(self.point.lat.clone());
            row.push(self.point.long.clone());
            row.push(issued_iso);
            row.push(valid_iso);
            row.push(values[i].clone());
            row.push(self.requested_on.clone());
            row.push(self.url.clone());
            row.push(opt_u32_text_exec(&a.category));
            row.push(opt_text_exec(&a.centerx));
            row.push(opt_text_exec(&a.centery));
            row.push(opt_text_exec(&a.groupname));
            row.push(opt_text_exec(&a.highps));
            row.push(opt_u32_text_exec(&a.idp_current_forecast));
            row.push(opt_u32_text_exec(&a.idp_fcst_hour));
            row.push(opt_u64_text_exec(&a.idp_filedate));
            row.push(opt_text_exec(&a.idp_grb_elem));
            row.push(opt_text_exec(&a.idp_grb_level));
            row.push(opt_u64_text_exec(&a.idp_ingestdate));
            row.push(opt_u64_text_exec(&a.idp_issueddate));
            row.push(opt_text_exec(&a.idp_source));
            row.push(opt_text_exec(&a.idp_subset));
            row.push(opt_u32_text_exec(&a.idp_time_series));
            row.push(opt_u64_text_exec(&a.idp_validendtime));
            row.push(opt_u64_text_exec(&a.idp_validtime));
            row.push(opt_text_exec(&a.lowps));
            row.push(opt_text_exec(&a.maxps));
            row.push(opt_text_exec(&a.minps));
            row.push(opt_text_exec(&a.name));
            row.push(opt_u32_text_exec(&a.objectid));
            row.push(opt_text_exec(&a.productname));
            row.push(opt_text_exec(&a.st_area_shape_));
            row.push(opt_text_exec(&a.tag));
            row.push(opt_text_exec(&a.zorder));
            proof {
                assert(row.deep_view() =~= target[i as int]);
                assert(row.deep_view()[3] == row@[3]@);
                assert(row@[3]@ == issued_view);
                assert(row.deep_view()[4] == row@[4]@);
                assert(row@[4]@ == valid_view);
            }
            let ghost prev = rows@;
            let ghost prev_dv = rows.deep_view();
            let ghost row_dv = row.deep_view();
            rows.push(row);
            i = i + 1;
            proof {
                assert forall|k: int| 0 <= k < i implies rows.deep_view()[k] == target[k] by {
                    assert(rows.deep_view()[k] == rows@[k].deep_view());
                    if k == i - 1 {
                        assert(rows@[k].deep_view() == row_dv);
                    } else {
                        assert(rows@[k] == prev[k]);
                        assert(prev_dv[k] == prev[k].deep_view());
                        assert(prev_dv[k] == target[k]);
                    }
                }
                assert forall|k: int|
                    0 <= k < i implies ((#[trigger] rows.deep_view()[k])[3].len() == 0
                    <==> feats@[k].attributes.idp_issueddate is None) && (
                rows.deep_view()[k][4].len() == 0 <==> feats@[k].attributes.idp_validtime
                    is None) by {
                    assert(rows.deep_view()[k] == rows@[k].deep_view());
                    if k == i - 1 {
                        assert(rows@[k].deep_view() == row_dv);
                        assert(row_dv[3] == issued_view);
                        assert(row_dv[4] == valid_view);
                    } else {
                        assert(rows@[k] == prev[k]);
                        assert(prev_dv[k] == prev[k].deep_view());
                    }
                }
            }
        }
        proof {
            assert(rows.deep_view() =~= target);
        }
        Ok(rows)
    }

    /// Renders this response's per-point table as comma-separated text: the
    /// header row, then one row per raster slice, in slice order. Fails as
    /// `flatten` fails.
    pub fn process_body(&self) -> (r: Result<String, FlattenError>)
        ensures
            r is Ok <==> (self.body.properties.values@.len()
                == self.body.catalog_items.features@.len() && (forall|i: int|
                0 <= i < self.body.catalog_items.features@.len() ==> attrs_ts_ok(
                    #[trigger] self.body.catalog_items.features@[i].attributes,
                ))),
            r matches Err(e) ==> (e is SchemaInvariant <==> self.body.properties.values@.len()
                != self.body.catalog_items.features@.len()),
            r matches Ok(s) ==> s@ == crate::table::enc_table(
                seq![header_row()] + flat_rows_of(*self),
            ),
    {
        let rows = match self.flatten() {
            Result::Ok(rows) => rows,
            Result::Err(e) => {
                return Err(e);
            },
        };
        let ghost rows_dv = rows.deep_view();
        let mut tab: Vec<Vec<String>> = Vec::new();
        let hdr = header_row_exec();
        crate::combine::push_row(&mut tab, &hdr);
        assert(tab.deep_view() =~= seq![header_row()] + rows_dv.take(0));
        let mut i: usize = 0;
        while i < rows.len()
            invariant
                i <= rows@.len(),
                rows_dv == rows.deep_view(),
                rows_dv.len() == rows@.len(),
                tab.deep_view() =~= seq![header_row()] + rows_dv.take(i as int),
            decreases rows@.len() - i,
        {
            proof {
                assert(rows@[i as int].deep_view() == rows_dv[i as int]);
            }
            crate::combine::push_row(&mut tab, &rows[i]);
            i = i + 1;
            assert(tab.deep_view() =~= seq![header_row()] + rows_dv.take(i as int));
        }
        proof {
            assert(rows_dv.take(rows@.len() as int) =~= rows_dv);
            assert(tab.deep_view() =~= seq![header_row()] + flat_rows_of(*self));
        }
        Ok(crate::table::encode_csv(&tab))
    }
}

} // verus!
