use madgrid::aggregate::aggregate_od_to_h3;
use madgrid::cells::parse_cell;
use madgrid::config::DelayCfg;
use madgrid::dates::Date;
use madgrid::enrich::{eligible_cells, fanout_batches, NoProvider, TrafficProvider};
use madgrid::history::{HistorySink, NoSink};
use madgrid::model::{H3DailyRow, ODRecord, PipelineError};
use madgrid::orange::compute_delay_orange;
use madgrid::pipeline::compute_day;

fn logrono_cell_hex() -> String {
    let center = h3o::LatLng::new(42.4627, -2.44498).unwrap();
    let cell: h3o::CellIndex = center.to_cell(h3o::Resolution::try_from(7u8).unwrap());
    cell.to_string()
}

fn single_row(conf: Option<u64>) -> ODRecord {
    let h = logrono_cell_hex();
    ODRecord {
        date: Date { year: 2025, month: 10, day: 27 },
        origin_h3: h.clone(),
        dest_h3: h,
        n_trucks: 120_000,
        n_cars: 800_000,
        conf,
    }
}

struct FixedProvider {
    delay: u64,
    conf: u64,
}

impl TrafficProvider for FixedProvider {
    fn delay_for_cell(&self, _cell: u64) -> Result<Option<(u64, u64)>, String> {
        Ok(Some((self.delay, self.conf)))
    }
}

struct NoCoverageProvider;

impl TrafficProvider for NoCoverageProvider {
    fn delay_for_cell(&self, _cell: u64) -> Result<Option<(u64, u64)>, String> {
        Ok(None)
    }
}

struct FailingProvider;

impl TrafficProvider for FailingProvider {
    fn delay_for_cell(&self, _cell: u64) -> Result<Option<(u64, u64)>, String> {
        Err("provider offline".to_string())
    }
}

#[test]
fn smoke_pipeline() {
    let od = vec![single_row(Some(800))];
    let mut cfg = DelayCfg::default();
    cfg.res = 7;
    let out = compute_day::<NoProvider, NoSink>(&od[0].date, &od, &cfg, None, None).unwrap();
    assert!(out.geojson.contains("FeatureCollection"));
}

#[test]
fn empty_day_yields_empty_metrics_and_features() {
    let cfg = DelayCfg::default();
    let date = Date { year: 2025, month: 10, day: 27 };
    let rows: Vec<ODRecord> = Vec::new();
    let out = compute_day::<NoProvider, NoSink>(&date, &rows, &cfg, None, None).unwrap();
    assert_eq!(out.metrics.len(), 0);
    assert!(out.geojson.contains("\"features\":[]"));
    assert!(out.sink_error.is_none());
}

#[test]
fn single_high_volume_cell_scores_expected_delay() {
    let od = vec![single_row(Some(800))];
    let cfg = DelayCfg::default();
    let out = compute_day::<NoProvider, NoSink>(&od[0].date, &od, &cfg, None, None).unwrap();
    assert_eq!(out.metrics.len(), 1);
    let m = *out.metrics.index(0);
    // the intra-cell trip is credited to origin and destination alike
    assert_eq!(m.trips_total, 1_936_000_000);
    assert_eq!(m.trips_trucks, 240_000);
    assert_eq!(m.trips_cars, 1_600_000);
    assert_eq!(m.conf_cell(), 800);
    assert_eq!(m.truck_share, 123);
    assert_eq!(m.vol_norm, 1000);
    assert_eq!(m.delay_orange, 1157);
    assert_eq!(m.delay_final, 1157);
    assert_eq!(m.delay_tomtom, 0);
    assert!(out.geojson.contains("\"delay_final\":1.16"));
    assert!(out.geojson.contains("\"used_tomtom\":false"));
}

#[test]
fn low_confidence_triggers_provider_blend() {
    let od = vec![single_row(Some(300))];
    let cfg = DelayCfg::default();
    let provider = FixedProvider { delay: 2000, conf: 900 };
    let out = compute_day::<FixedProvider, NoSink>(&od[0].date, &od, &cfg, Some(&provider), None)
        .unwrap();
    let m = *out.metrics.index(0);
    assert_eq!(m.delay_orange, 1157);
    assert_eq!(m.delay_tomtom, 2000);
    assert_eq!(m.delay_final, 1677);
    assert!(m.delay_final > 1157 && m.delay_final < 2000);
    // closer to the provider's delay, because the cell's own confidence is low
    assert!(2000 - m.delay_final < m.delay_final - 1157);
}

#[test]
fn provider_without_coverage_leaves_orange_delay() {
    let od = vec![single_row(Some(300))];
    let cfg = DelayCfg::default();
    let provider = NoCoverageProvider;
    let out = compute_day::<NoCoverageProvider, NoSink>(
        &od[0].date,
        &od,
        &cfg,
        Some(&provider),
        None,
    )
    .unwrap();
    let m = *out.metrics.index(0);
    assert_eq!(m.delay_final, m.delay_orange);
    assert_eq!(m.delay_tomtom, 0);
}

#[test]
fn failing_provider_leaves_every_cell_untouched() {
    let od = vec![single_row(Some(300)), {
        let mut r = single_row(Some(200));
        // a second, different cell at resolution 7 via another point
        let center = h3o::LatLng::new(42.47, -2.43).unwrap();
        let cell: h3o::CellIndex = center.to_cell(h3o::Resolution::try_from(7u8).unwrap());
        r.origin_h3 = cell.to_string();
        r.dest_h3 = r.origin_h3.clone();
        r
    }];
    let cfg = DelayCfg::default();
    let provider = FailingProvider;
    let out =
        compute_day::<FailingProvider, NoSink>(&od[0].date, &od, &cfg, Some(&provider), None)
            .unwrap();
    for i in 0..out.metrics.len() {
        let m = *out.metrics.index(i);
        assert_eq!(m.delay_final, m.delay_orange);
        assert_eq!(m.delay_tomtom, 0);
    }
}

fn first_child_hex(parent_hex: &str, parent_res: u8) -> String {
    let parent: h3o::CellIndex = parent_hex.parse().unwrap();
    let child_res = h3o::Resolution::try_from(parent_res + 1).unwrap();
    parent.children(child_res).next().unwrap().to_string()
}

#[test]
fn resolution_mismatch_is_fatal() {
    let mut row = single_row(Some(800));
    row.origin_h3 = first_child_hex(&row.origin_h3, 7);
    let od = vec![row];
    let cfg = DelayCfg::default();
    let err = compute_day::<NoProvider, NoSink>(&od[0].date, &od, &cfg, None, None).unwrap_err();
    assert_eq!(err, PipelineError::ResolutionMismatch { row: 0 });
}

#[test]
fn bad_cell_identifiers_are_fatal() {
    let mut row = single_row(None);
    row.origin_h3 = "not-a-cell".to_string();
    let od = vec![row];
    let cfg = DelayCfg::default();
    let err = compute_day::<NoProvider, NoSink>(&od[0].date, &od, &cfg, None, None).unwrap_err();
    assert_eq!(err, PipelineError::BadOriginCell { row: 0 });

    let mut row2 = single_row(None);
    row2.dest_h3 = "ffffffffffffffff".to_string();
    let od2 = vec![row2];
    let err2 =
        compute_day::<NoProvider, NoSink>(&od2[0].date, &od2, &cfg, None, None).unwrap_err();
    assert_eq!(err2, PipelineError::BadDestCell { row: 0 });
}

#[test]
fn invalid_configuration_is_fatal_at_entry() {
    let od = vec![single_row(None)];
    let mut cfg = DelayCfg::default();
    cfg.capacity_percentile = 2000;
    let err = compute_day::<NoProvider, NoSink>(&od[0].date, &od, &cfg, None, None).unwrap_err();
    assert_eq!(err, PipelineError::InvalidConfig);
}

struct RejectingSink;

impl HistorySink for RejectingSink {
    fn persist(&self, rows: &Vec<H3DailyRow>) -> Result<(), String> {
        Err(format!("refused {} rows", rows.len()))
    }
}

#[test]
fn sink_receives_rows_and_failure_is_surfaced() {

    let od = vec![single_row(Some(800))];
    let cfg = DelayCfg::default();
    let sink = RejectingSink;
    let out =
        compute_day::<NoProvider, RejectingSink>(&od[0].date, &od, &cfg, None, Some(&sink))
            .unwrap();
    // the day's outputs stay valid, the failure is carried alongside
    assert_eq!(out.metrics.len(), 1);
    assert!(out.geojson.contains("FeatureCollection"));
    assert_eq!(out.sink_error.as_deref(), Some("refused 1 rows"));
}

#[test]
fn shuffled_rows_give_the_same_cells_and_sums() {
    let h1 = logrono_cell_hex();
    let center2 = h3o::LatLng::new(42.47, -2.43).unwrap();
    let h2: String =
        center2.to_cell(h3o::Resolution::try_from(7u8).unwrap()).to_string();
    let date = Date { year: 2025, month: 10, day: 27 };
    let mk = |o: &str, d: &str, nt: u64, nc: u64, c: u64| ODRecord {
        date,
        origin_h3: o.to_string(),
        dest_h3: d.to_string(),
        n_trucks: nt,
        n_cars: nc,
        conf: Some(c),
    };
    let rows1 = vec![
        mk(&h1, &h2, 40_000, 900_000, 900),
        mk(&h2, &h1, 35_000, 1_100_000, 920),
        mk(&h1, &h1, 5_000, 400_000, 300),
    ];
    let rows2 = vec![rows1[2].clone(), rows1[0].clone(), rows1[1].clone()];
    let cfg = DelayCfg::default();
    let out1 = compute_day::<NoProvider, NoSink>(&date, &rows1, &cfg, None, None).unwrap();
    let out2 = compute_day::<NoProvider, NoSink>(&date, &rows2, &cfg, None, None).unwrap();
    assert_eq!(out1.metrics.len(), out2.metrics.len());
    for i in 0..out1.metrics.len() {
        let a = *out1.metrics.index(i);
        let j = out2.metrics.find(a.cell).unwrap();
        let b = *out2.metrics.index(j);
        assert_eq!(a, b);
    }
}

#[test]
fn scoring_twice_changes_nothing() {
    let od = vec![single_row(Some(800))];
    let cfg = DelayCfg::default();
    let mut metrics = aggregate_od_to_h3(&od, &cfg).unwrap();
    compute_delay_orange(&mut metrics, &cfg);
    let once: Vec<_> = (0..metrics.len()).map(|i| *metrics.index(i)).collect();
    compute_delay_orange(&mut metrics, &cfg);
    let twice: Vec<_> = (0..metrics.len()).map(|i| *metrics.index(i)).collect();
    assert_eq!(once, twice);
}

#[test]
fn concurrency_cap_bounds_every_batch() {
    let targets: Vec<u64> = (0..100u64).collect();
    let batches = fanout_batches(&targets, 4);
    assert_eq!(batches.len(), 25);
    let mut seen: Vec<u64> = Vec::new();
    for b in &batches {
        assert!(b.len() <= 4);
        assert!(!b.is_empty());
        seen.extend_from_slice(b);
    }
    assert_eq!(seen, targets);
}

#[test]
fn eligible_cells_snapshot_low_confidence_only() {
    let h1 = logrono_cell_hex();
    let center2 = h3o::LatLng::new(42.47, -2.43).unwrap();
    let h2: String =
        center2.to_cell(h3o::Resolution::try_from(7u8).unwrap()).to_string();
    let date = Date { year: 2025, month: 10, day: 27 };
    let rows = vec![
        ODRecord {
            date,
            origin_h3: h1.clone(),
            dest_h3: h1.clone(),
            n_trucks: 10_000,
            n_cars: 100_000,
            conf: Some(900),
        },
        ODRecord {
            date,
            origin_h3: h2.clone(),
            dest_h3: h2.clone(),
            n_trucks: 10_000,
            n_cars: 100_000,
            conf: Some(300),
        },
    ];
    let cfg = DelayCfg::default();
    let mut metrics = aggregate_od_to_h3(&rows, &cfg).unwrap();
    compute_delay_orange(&mut metrics, &cfg);
    let low = eligible_cells(&metrics, &cfg);
    let low_cell = parse_cell(&h2).unwrap();
    assert_eq!(low, vec![low_cell]);
}
