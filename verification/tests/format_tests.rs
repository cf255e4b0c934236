use madgrid::cells::{cell_polygon_coords, cell_resolution, cell_to_hex, parse_cell};
use madgrid::csvio::{format_od_record, od_csv_header, parse_od_header, parse_od_record};
use madgrid::dates::{parse_iso, Date};
use madgrid::model::ODRecord;
use madgrid::numfmt::{fmt_scaled, parse_scaled, u64_to_dec};

fn real_cell() -> (String, u64) {
    let center = h3o::LatLng::new(42.4627, -2.44498).unwrap();
    let cell: h3o::CellIndex = center.to_cell(h3o::Resolution::try_from(7u8).unwrap());
    let hex = cell.to_string();
    let v = parse_cell(&hex).unwrap();
    (hex, v)
}

#[test]
fn decimal_formatting_is_exact() {
    assert_eq!(u64_to_dec(0), "0");
    assert_eq!(u64_to_dec(1157), "1157");
    assert_eq!(fmt_scaled(968_000_000, 6), "968.000000");
    assert_eq!(fmt_scaled(1157, 3), "1.157");
    assert_eq!(fmt_scaled(800, 3), "0.800");
    assert_eq!(fmt_scaled(0, 3), "0.000");
    assert_eq!(fmt_scaled(123, 0), "123");
}

#[test]
fn decimal_parsing_is_exact() {
    assert_eq!(parse_scaled("120", 3), Some(120_000));
    assert_eq!(parse_scaled("0.8", 3), Some(800));
    assert_eq!(parse_scaled("0.800", 3), Some(800));
    assert_eq!(parse_scaled("1.157", 3), Some(1157));
    assert_eq!(parse_scaled("1.1579", 3), Some(1157));
    assert_eq!(parse_scaled("", 3), None);
    assert_eq!(parse_scaled("1.2.3", 3), None);
    assert_eq!(parse_scaled("12a", 3), None);
    assert_eq!(parse_scaled(".5", 3), None);
}

#[test]
fn date_text_round_trips() {
    let d = Date { year: 2025, month: 10, day: 27 };
    let s = d.to_iso();
    assert_eq!(s, "2025-10-27");
    assert_eq!(parse_iso(&s), Some(d));
    assert_eq!(parse_iso("2025-02-30"), None);
    assert_eq!(parse_iso("2024-02-29"), Some(Date { year: 2024, month: 2, day: 29 }));
    assert_eq!(parse_iso("2025-13-01"), None);
    assert_eq!(parse_iso("25-01-01"), None);
}

#[test]
fn cell_text_round_trips_and_rejects_garbage() {
    let (hex, v) = real_cell();
    assert_eq!(cell_to_hex(v), hex);
    assert_eq!(parse_cell(&cell_to_hex(v)), Some(v));
    assert_eq!(cell_resolution(v), 7);
    assert_eq!(parse_cell("not-a-cell"), None);
    // a value whose reserved bits are set names no cell
    assert_eq!(parse_cell("ffffffffffffffff"), None);
    assert_eq!(parse_cell(""), None);
}

#[test]
fn cell_polygon_is_a_closed_ring() {
    let (_, v) = real_cell();
    let ring = cell_polygon_coords(v);
    assert!(ring.len() >= 6);
    assert_eq!(ring.first(), ring.last());
    // the coordinates are decimal numbers near the cell's center
    let lng: f64 = ring[0].0.parse().unwrap();
    let lat: f64 = ring[0].1.parse().unwrap();
    assert!((lng - -2.44498).abs() < 0.1);
    assert!((lat - 42.4627).abs() < 0.1);
    // an invalid value yields no ring
    assert_eq!(cell_polygon_coords(0).len(), 0);
}

#[test]
fn od_record_round_trips_through_csv() {
    let (hex, _) = real_cell();
    let rec = ODRecord {
        date: Date { year: 2025, month: 10, day: 27 },
        origin_h3: hex.clone(),
        dest_h3: hex,
        n_trucks: 120_000,
        n_cars: 800_500,
        conf: Some(800),
    };
    let header = od_csv_header();
    assert_eq!(header, "date,origin_h3,dest_h3,n_trucks,n_cars,conf");
    let cm = parse_od_header(&header).unwrap();
    let line = format_od_record(&rec);
    let back = parse_od_record(&line, &cm).unwrap();
    assert_eq!(back.date, rec.date);
    assert_eq!(back.origin_h3, rec.origin_h3);
    assert_eq!(back.dest_h3, rec.dest_h3);
    assert_eq!(back.n_trucks, rec.n_trucks);
    assert_eq!(back.n_cars, rec.n_cars);
    assert_eq!(back.conf, rec.conf);
}

#[test]
fn od_record_without_confidence_round_trips() {
    let (hex, _) = real_cell();
    let rec = ODRecord {
        date: Date { year: 2025, month: 1, day: 2 },
        origin_h3: hex.clone(),
        dest_h3: hex,
        n_trucks: 0,
        n_cars: 1_500,
        conf: None,
    };
    let cm = parse_od_header(&od_csv_header()).unwrap();
    let line = format_od_record(&rec);
    assert!(line.ends_with(','));
    let back = parse_od_record(&line, &cm).unwrap();
    assert_eq!(back.conf, None);
    assert_eq!(back.n_cars, 1_500);
}

#[test]
fn header_columns_may_come_in_any_order() {
    let (hex, _) = real_cell();
    let cm = parse_od_header("n_cars,date,dest_h3,origin_h3,n_trucks,conf").unwrap();
    let line = format!("800,2025-10-27,{},{},120,0.8", hex, hex);
    let back = parse_od_record(&line, &cm).unwrap();
    assert_eq!(back.n_cars, 800_000);
    assert_eq!(back.n_trucks, 120_000);
    assert_eq!(back.conf, Some(800));
    assert_eq!(back.date, Date { year: 2025, month: 10, day: 27 });
}

#[test]
fn header_missing_a_required_column_is_rejected() {
    assert!(parse_od_header("date,origin_h3,dest_h3,n_trucks").is_none());
    // without a confidence column records simply carry no confidence
    let (hex, _) = real_cell();
    let cm = parse_od_header("date,origin_h3,dest_h3,n_trucks,n_cars").unwrap();
    let line = format!("2025-10-27,{},{},120,800", hex, hex);
    let back = parse_od_record(&line, &cm).unwrap();
    assert_eq!(back.conf, None);
}

#[test]
fn record_rejections() {
    let (hex, _) = real_cell();
    let cm = parse_od_header(&od_csv_header()).unwrap();
    // bad date
    assert!(parse_od_record(&format!("2025-02-30,{},{},1,1,", hex, hex), &cm).is_none());
    // bad count
    assert!(parse_od_record(&format!("2025-10-27,{},{},x,1,", hex, hex), &cm).is_none());
    // count above the supported range
    assert!(
        parse_od_record(&format!("2025-10-27,{},{},4000000000000,1,", hex, hex), &cm).is_none()
    );
    // too few fields
    assert!(parse_od_record("2025-10-27,abc", &cm).is_none());
}
