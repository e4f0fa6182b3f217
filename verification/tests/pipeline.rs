use aq_fcst::checkpoint::{checkpoint_name, checkpoint_names, plan_actions, PointAction};
use aq_fcst::client::identify_query_params;
use aq_fcst::combine::{combine_csv_files, combine_tables};
use aq_fcst::point::Point;
use aq_fcst::process::{process_table, processed_path, ProcessError};
use aq_fcst::response::{
    header_row_exec, Attributes, CatalogItems, Feature, FlattenError, IdentifyResponse, Location,
    Properties, ResponseBody, SpatialReference,
};
use aq_fcst::table::{encode_csv, parse_csv, parse_csv_lenient};
use aq_fcst::text::clean_and_snakecase;
use aq_fcst::timefmt::epoch_ms_to_la_iso;

fn point(id: &str, lat: &str, long: &str) -> Point {
    Point { point_id: id.to_owned(), lat: lat.to_owned(), long: long.to_owned() }
}

fn empty_attributes() -> Attributes {
    Attributes {
        category: None,
        centerx: None,
        centery: None,
        groupname: None,
        highps: None,
        idp_current_forecast: None,
        idp_fcst_hour: None,
        idp_filedate: None,
        idp_grb_elem: None,
        idp_grb_level: None,
        idp_ingestdate: None,
        idp_issueddate: None,
        idp_source: None,
        idp_subset: None,
        idp_time_series: None,
        idp_validendtime: None,
        idp_validtime: None,
        lowps: None,
        maxps: None,
        minps: None,
        name: None,
        objectid: None,
        productname: None,
        st_area_shape_: None,
        tag: None,
        zorder: None,
    }
}

fn response_with(values: Vec<&str>, attrs: Vec<Attributes>) -> IdentifyResponse {
    IdentifyResponse {
        point: point("p1", "34.05", "-118.25"),
        requested_on: "2024-01-01T00:00:00-08:00".to_owned(),
        url: "https://example.test/identify?f=json".to_owned(),
        body: ResponseBody {
            object_id: 1,
            name: "Pixel".to_owned(),
            value: "ok".to_owned(),
            location: Location {
                x: "-118.25".to_owned(),
                y: "34.05".to_owned(),
                spatial_reference: SpatialReference { wkid: 4326, latest_wkid: 4326 },
            },
            properties: Properties { values: values.iter().map(|v| v.to_string()).collect() },
            catalog_items: CatalogItems {
                features: attrs.into_iter().map(|attributes| Feature { attributes }).collect(),
            },
            catalog_item_visibilities: vec![1],
        },
    }
}

#[test]
fn checkpoint_name_normalizes_identifier() {
    assert_eq!(checkpoint_name(3, "Site A  1"), "3_site_a_1_output.csv");
}

#[test]
fn checkpoint_name_strips_and_trims() {
    assert_eq!(checkpoint_name(0, "  Big-Town (CA)! "), "0_bigtown_ca_output.csv");
    assert_eq!(checkpoint_name(12, "___x___"), "12_x_output.csv");
}

#[test]
fn clean_keeps_underscores_and_digits() {
    assert_eq!(clean_and_snakecase("AB_7 c"), "ab_7_c");
}

#[test]
fn geometry_payload_is_exact() {
    let p = point("a", "34.05", "-118.25");
    assert_eq!(
        p.to_json_geometry(),
        "{'x': -118.25, 'y': 34.05, 'spatialReference': {'wkid': 4326}}"
    );
}

#[test]
fn query_params_are_fixed() {
    let p = point("a", "1.5", "2.5");
    let params = identify_query_params(&p);
    assert_eq!(params.len(), 7);
    assert_eq!(params[0].0, "geometry");
    assert_eq!(params[0].1, "{'x': 2.5, 'y': 1.5, 'spatialReference': {'wkid': 4326}}");
    assert_eq!(params[1], ("geometryType".to_owned(), "esriGeometryPoint".to_owned()));
    assert_eq!(params[2], ("returnGeometry".to_owned(), "false".to_owned()));
    assert_eq!(params[3], ("returnCatalogItems".to_owned(), "true".to_owned()));
    assert_eq!(params[4], ("returnPixelValues".to_owned(), "true".to_owned()));
    assert_eq!(params[5], ("processAsMultiDimensional".to_owned(), "false".to_owned()));
    assert_eq!(params[6], ("f".to_owned(), "json".to_owned()));
}

#[test]
fn second_run_skips_every_point() {
    let points = vec![point("Site A  1", "1", "2"), point("Site B", "3", "4")];
    let existing = checkpoint_names(&points);
    let plan = plan_actions(&points, &existing);
    assert_eq!(plan, vec![PointAction::Skip, PointAction::Skip]);
}

#[test]
fn resume_fetches_only_remaining_points() {
    let points = vec![point("a", "1", "2"), point("b", "3", "4"), point("c", "5", "6")];
    let names = checkpoint_names(&points);
    let existing = vec![names[0].clone(), names[1].clone()];
    let plan = plan_actions(&points, &existing);
    assert_eq!(plan, vec![PointAction::Skip, PointAction::Skip, PointAction::Fetch]);
}

#[test]
fn same_identifier_does_not_skip_other_index() {
    let points = vec![point("same", "1", "2"), point("same", "3", "4")];
    let existing = vec![checkpoint_name(0, "same")];
    let plan = plan_actions(&points, &existing);
    assert_eq!(plan, vec![PointAction::Skip, PointAction::Fetch]);
}

#[test]
fn timestamp_derivation_is_deterministic() {
    let first = epoch_ms_to_la_iso(1_700_000_000_000).expect("in range");
    let second = epoch_ms_to_la_iso(1_700_000_000_000).expect("in range");
    assert_eq!(first, second);
    // 2023-11-14T22:13:20Z rendered in the America/Los_Angeles zone (PST).
    assert_eq!(first, "2023-11-14T14:13:20-08:00");
}

#[test]
fn timestamp_milliseconds_truncate_to_seconds() {
    assert_eq!(
        epoch_ms_to_la_iso(1_700_000_000_999),
        epoch_ms_to_la_iso(1_700_000_000_000)
    );
}

#[test]
fn flatten_rejects_length_mismatch() {
    let r = response_with(vec!["1.0", "2.0"], vec![empty_attributes()]);
    assert_eq!(r.flatten().unwrap_err(), FlattenError::SchemaInvariant);
    assert_eq!(r.process_body().unwrap_err(), FlattenError::SchemaInvariant);
}

#[test]
fn flatten_rejects_out_of_range_timestamp() {
    let mut a = empty_attributes();
    a.idp_issueddate = Some(u64::MAX);
    let r = response_with(vec!["1.0"], vec![a]);
    assert_eq!(r.flatten().unwrap_err(), FlattenError::TimestampRange);
}

#[test]
fn combiner_over_text_rejects_headerless_input() {
    assert!(combine_csv_files(&vec![String::new()]).is_none());
}

#[test]
fn flatten_emits_one_row_per_slice() {
    let mut a1 = empty_attributes();
    a1.idp_issueddate = Some(1_700_000_000_000);
    a1.idp_validtime = Some(1_700_003_600_000);
    a1.idp_fcst_hour = Some(1);
    let a2 = empty_attributes();
    let r = response_with(vec!["1.5", "2.5"], vec![a1, a2]);
    let rows = r.flatten().expect("flattens");
    assert_eq!(rows.len(), 2);
    assert_eq!(rows[0].len(), 34);
    assert_eq!(rows[0][0], "p1");
    assert_eq!(rows[0][3], "2023-11-14T14:13:20-08:00");
    assert_eq!(rows[0][4], "2023-11-14T15:13:20-08:00");
    assert_eq!(rows[0][5], "1.5");
    assert_eq!(rows[0][14], "1");
    assert_eq!(rows[0][19], "1700000000000");
    assert_eq!(rows[1][3], "");
    assert_eq!(rows[1][5], "2.5");
}

#[test]
fn per_point_table_text_is_exact() {
    let r = response_with(vec!["1.5"], vec![empty_attributes()]);
    let text = r.process_body().expect("renders");
    let header = "point_id,lat,long,idp_issueddate_iso,idp_validtime_iso,value,requested_on,url,category,centerx,centery,groupname,highps,idp_current_forecast,idp_fcst_hour,idp_filedate,idp_grb_elem,idp_grb_level,idp_ingestdate,idp_issueddate,idp_source,idp_subset,idp_time_series,idp_validendtime,idp_validtime,lowps,maxps,minps,name,objectid,productname,st_area_shape_,tag,zorder";
    let row_prefix = "p1,34.05,-118.25,,,1.5,2024-01-01T00:00:00-08:00,https://example.test/identify?f=json";
    let expected = format!("{}\n{}{}\n", header, row_prefix, ",".repeat(26));
    assert_eq!(text, expected);
}

#[test]
fn combiner_writes_header_once_and_keeps_order() {
    let header = vec!["h1".to_owned(), "h2".to_owned()];
    let table = |v: &str| vec![header.clone(), vec![v.to_owned(), v.to_owned()]];
    let combined = combine_tables(&vec![table("A"), table("B"), table("C")]);
    assert_eq!(combined.len(), 4);
    assert_eq!(combined[0], header);
    assert_eq!(combined[1][0], "A");
    assert_eq!(combined[2][0], "B");
    assert_eq!(combined[3][0], "C");
}

#[test]
fn combiner_over_text_matches_row_combiner() {
    let f1 = "h1,h2\nA,1\n".to_owned();
    let f2 = "h1,h2\nB,2\n".to_owned();
    let f3 = "h1,h2\nC,3\n".to_owned();
    let combined = combine_csv_files(&vec![f1, f2, f3]).expect("combines");
    assert_eq!(combined, "h1,h2\nA,1\nB,2\nC,3\n");
}

#[test]
fn combined_row_count_is_sum_of_inputs() {
    let header = vec!["h".to_owned()];
    let t1 = vec![header.clone(), vec!["a".to_owned()], vec!["b".to_owned()]];
    let t2 = vec![header.clone()];
    let t3 = vec![header.clone(), vec!["c".to_owned()]];
    let combined = combine_tables(&vec![t1, t2, t3]);
    assert_eq!(combined.len(), 1 + 2 + 0 + 1);
}

#[test]
fn csv_round_trips_with_quoting() {
    let table = vec![
        vec!["plain".to_owned(), "with,comma".to_owned()],
        vec!["he said \"hi\"".to_owned(), "line\nbreak".to_owned()],
        vec!["".to_owned(), "end".to_owned()],
    ];
    let text = encode_csv(&table);
    let parsed = parse_csv(&text).expect("round trip");
    assert_eq!(parsed, table);
}

#[test]
fn parser_rejects_unterminated_quote() {
    assert!(parse_csv("\"abc\n").is_none());
}

#[test]
fn strict_parser_rejects_needless_quoting_lenient_accepts() {
    let text = "\"Site A  1\",34.05,-118.25\n";
    assert!(parse_csv(text).is_none());
    let table = parse_csv_lenient(text).expect("lenient parse");
    assert_eq!(
        table,
        vec![vec!["Site A  1".to_owned(), "34.05".to_owned(), "-118.25".to_owned()]]
    );
}

#[test]
fn lenient_parser_still_rejects_unterminated_quote() {
    assert!(parse_csv_lenient("\"abc\n").is_none());
    assert!(parse_csv_lenient("a\"b,c\n").is_none());
}

#[test]
fn per_point_files_combine_into_one_table() {
    let r1 = response_with(vec!["1.0", "2.0"], vec![empty_attributes(), empty_attributes()]);
    let r2 = response_with(vec!["3.0"], vec![empty_attributes()]);
    let f1 = r1.process_body().expect("renders");
    let f2 = r2.process_body().expect("renders");
    let combined = combine_csv_files(&vec![f1.clone(), f2]).expect("combines");
    let table = parse_csv(&combined).expect("parses back");
    assert_eq!(table.len(), 4);
    assert_eq!(table[0], header_row_exec());
    assert_eq!(table[1][5], "1.0");
    assert_eq!(table[2][5], "2.0");
    assert_eq!(table[3][5], "3.0");
    // the combined header line is the first per-point file's header line
    assert!(combined.starts_with(f1.lines().next().unwrap()));
}

fn combined_row(pid: &str, issued: &str, valid: &str, value: &str) -> Vec<String> {
    let mut row = vec![String::new(); 34];
    row[0] = pid.to_owned();
    row[1] = "1.0".to_owned();
    row[2] = "2.0".to_owned();
    row[3] = issued.to_owned();
    row[4] = valid.to_owned();
    row[5] = value.to_owned();
    row[6] = "req".to_owned();
    row[7] = "url".to_owned();
    row
}

#[test]
fn processing_keeps_latest_issuance_sorted() {
    let table = vec![
        header_row_exec(),
        combined_row("b", "2024-01-02T00:00:00-08:00", "2024-01-02T03:00:00-08:00", "4"),
        combined_row("a", "2024-01-01T00:00:00-08:00", "2024-01-01T01:00:00-08:00", "1"),
        combined_row("a", "2024-01-02T00:00:00-08:00", "2024-01-02T02:00:00-08:00", "2"),
        combined_row("a", "2024-01-02T00:00:00-08:00", "2024-01-02T01:00:00-08:00", "3"),
        combined_row("a", "2024-01-02T00:00:00-08:00", "", "5"),
    ];
    let out = process_table(&table).expect("processes");
    assert_eq!(out.len(), 4);
    assert_eq!(
        out[0],
        vec!["point_id", "lat", "long", "idp_issueddate_iso", "idp_validtime_iso", "value",
            "requested_on"]
    );
    assert_eq!(out[1][0], "a");
    assert_eq!(out[1][4], "2024-01-02T01:00:00-08:00");
    assert_eq!(out[1][5], "3");
    assert_eq!(out[2][0], "a");
    assert_eq!(out[2][4], "2024-01-02T02:00:00-08:00");
    assert_eq!(out[3][0], "b");
    assert_eq!(out[3][5], "4");
    for row in &out {
        assert_eq!(row.len(), 7);
    }
}

#[test]
fn processing_fails_when_no_issuance_exists() {
    let table = vec![header_row_exec(), combined_row("a", "", "v", "1")];
    assert_eq!(process_table(&table).unwrap_err(), ProcessError::NoIssuance);
}

#[test]
fn processed_path_inserts_suffix_before_extension() {
    assert_eq!(processed_path("out.csv"), "out_processed.csv");
    assert_eq!(processed_path("data"), "data_processed.csv");
}
