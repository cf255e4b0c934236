use madgrid::dates::Date;
use madgrid::enrich::flow_sample;
use madgrid::history::{entity_id, jsonl_line, jsonl_lines, OrionLdSink};
use madgrid::model::{H3DailyRow, H3Metrics, JsonlSink, Kpis, CacheCtl};

fn sample_row() -> H3DailyRow {
    H3DailyRow {
        date: Date { year: 2025, month: 10, day: 27 },
        h3: 0x871f94492ffffff,
        res: 7,
        trips_total: 968_000_000,
        trips_trucks: 120_000,
        trips_cars: 800_000,
        truck_share: 123,
        vol_norm: 1000,
        conf_cell: 800,
        delay_orange: 1157,
        delay_tomtom: 0,
        delay_final: 1157,
    }
}

#[test]
fn jsonl_line_is_exact() {
    let line = jsonl_line(&sample_row());
    assert_eq!(
        line,
        "{\"date\":\"2025-10-27\",\"h3\":\"871f94492ffffff\",\"res\":7,\
         \"trips_total\":968.000000,\"trips_trucks\":120.000,\"trips_cars\":800.000,\
         \"truck_share\":0.123,\"vol_norm\":1.000,\"conf_cell\":0.800,\
         \"delay_orange\":1.157,\"delay_tomtom\":0.000,\"delay_final\":1.157}"
    );
}

#[test]
fn jsonl_lines_are_newline_terminated() {
    let rows = vec![sample_row(), sample_row()];
    let text = jsonl_lines(&rows);
    assert_eq!(text.matches('\n').count(), 2);
    assert!(text.ends_with('\n'));
    let first = text.lines().next().unwrap();
    assert_eq!(first, jsonl_line(&sample_row()));
}

#[test]
fn entity_ids_are_stable() {
    let d = Date { year: 2025, month: 10, day: 27 };
    let id = entity_id(&d, 0x871f94492ffffff);
    assert_eq!(id, "urn:ngsi-ld:H3Delay:2025-10-27:871f94492ffffff");
}

#[test]
fn entities_payload_wraps_every_row() {
    let sink = OrionLdSink::new("http://orion:1026/".to_string(), None, None);
    assert_eq!(sink.upsert_url(), "http://orion:1026/ngsi-ld/v1/entityOperations/upsert");
    let body = sink.build_entities_payload(&vec![sample_row()]);
    assert!(body.starts_with("{\"actionType\":\"append_strict\",\"entities\":["));
    assert!(body.ends_with("]}"));
    assert!(body.contains("\"id\":\"urn:ngsi-ld:H3Delay:2025-10-27:871f94492ffffff\""));
    assert!(body.contains("\"type\":\"H3Delay\""));
    assert!(body.contains("\"delayOrange\":{\"type\":\"Property\",\"value\":1.157}"));
    let empty = sink.build_entities_payload(&Vec::new());
    assert_eq!(empty, "{\"actionType\":\"append_strict\",\"entities\":[]}");
}

#[test]
fn fresh_metrics_have_full_confidence() {
    let m = H3Metrics::new(0x871f94492ffffff);
    assert_eq!(m.conf_weight, 0);
    assert_eq!(m.conf_cell(), 1000);
    assert_eq!(m.delay_orange, 1000);
    assert_eq!(m.delay_final, 1000);
    assert_eq!(m.delay_tomtom, 0);
}

#[test]
fn flow_sample_follows_the_speed_ratio() {
    // free-flow 50 km/h over current 25 km/h is a delay of 2.0
    assert_eq!(flow_sample(25_000, 50_000, Some(700)), Some((2000, 700)));
    // the ratio is clamped into [1, 10]
    assert_eq!(flow_sample(50_000, 25_000, None), Some((1000, 1000)));
    assert_eq!(flow_sample(1, 1_000_000, None), Some((10_000, 1000)));
    // non-positive speeds mean no sample
    assert_eq!(flow_sample(0, 50_000, None), None);
    assert_eq!(flow_sample(50_000, 0, Some(1000)), None);
    // provider confidence above one counts as one
    assert_eq!(flow_sample(25_000, 50_000, Some(5000)), Some((2000, 1000)));
}

#[test]
fn auxiliary_state_types_hold_their_fields() {
    let k = Kpis { carga: 3, inc: 5 };
    assert_eq!(k.carga, 3);
    assert_eq!(k.inc, 5);
    let c = CacheCtl::new();
    assert!(c.etag.is_none());
    assert!(c.last_mod.is_none());
    let s = JsonlSink::new("data/h3_daily.jsonl".to_string());
    assert_eq!(s.path, "data/h3_daily.jsonl");
}
