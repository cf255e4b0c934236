//! The day orchestrator: aggregate, score, enrich, persist, render.
//!
//! The five stages run strictly in order. Input and configuration errors
//! are fatal before any output exists; provider trouble never is; a sink
//! failure is carried in the output next to the finished metrics and
//! GeoJSON, which stay valid.

use vstd::prelude::*;

use crate::aggregate::{agg_budget, aggregate_od_to_h3, aggregated, row_error, row_ok, rows_ok};
use crate::config::DelayCfg;
use crate::dates::Date;
use crate::enrich::{
    blended_metrics, eligible, enrich_keeps, enrich_with_traffic_provider, TrafficProvider,
};
use crate::history::{daily_rows, HistorySink};
use crate::model::{DayOutput, MetricsMap, ODRecord, PipelineError};
use crate::orange::{compute_delay_orange, orange_map};
use crate::render::{geojson_spec, to_geojson};

verus! {

/// How enriched metrics relate to the scored base: nothing but the two
/// provider-touched delay fields may differ, confident cells are
/// untouched, and an eligible cell either kept its Orange delay or holds
/// the blend of some provider sample.
pub open spec fn enrich_rel(base: Seq<crate::model::H3Metrics>, out: Seq<crate::model::H3Metrics>, cfg: DelayCfg) -> bool {
    &&& out.len() == base.len()
    &&& forall|i: int| 0 <= i < out.len() ==> enrich_keeps(base[i], #[trigger] out[i])
    &&& forall|i: int|
        0 <= i < out.len() && !eligible(base[i], cfg) ==> #[trigger] out[i] == base[i]
    &&& forall|i: int|
        0 <= i < out.len() && eligible(base[i], cfg) ==> #[trigger] out[i] == base[i] || exists|
            dp: u64,
            cp: u64,
        | out[i] == blended_metrics(base[i], dp, cp, cfg)
}

/// What a finished day's metrics are: the Orange scoring of some
/// aggregation of the rows, possibly enriched when a provider was given.
pub open spec fn day_metrics_ok(
    outm: Seq<crate::model::H3Metrics>,
    rows: Seq<crate::model::ODRecordV>,
    cfg: DelayCfg,
    with_provider: bool,
) -> bool {
    exists|aggv: Seq<crate::model::H3Metrics>|
        #[trigger] aggregated(aggv, rows, cfg) && (if with_provider {
            enrich_rel(orange_map(aggv, cfg), outm, cfg)
        } else {
            outm == orange_map(aggv, cfg)
        })
}

/// Shuffling the input rows changes nothing: two days computed without a
/// provider from the same rows in any order hold, cell for cell, exactly
/// the same metrics.
pub proof fn lemma_day_order_independent(
    out1: Seq<crate::model::H3Metrics>,
    rows1: Seq<crate::model::ODRecordV>,
    out2: Seq<crate::model::H3Metrics>,
    rows2: Seq<crate::model::ODRecordV>,
    cfg: DelayCfg,
)
    requires
        day_metrics_ok(out1, rows1, cfg, false),
        day_metrics_ok(out2, rows2, cfg, false),
        rows1.to_multiset() == rows2.to_multiset(),
    ensures
        forall|c: u64|
            (#[trigger] crate::model::find_cell(out1, c) >= 0 <==> crate::model::find_cell(out2, c)
                >= 0) && (crate::model::find_cell(out1, c) >= 0 ==> out1[crate::model::find_cell(
                out1,
                c,
            )] == out2[crate::model::find_cell(out2, c)]),
{
    let aggv1 = choose|aggv: Seq<crate::model::H3Metrics>|
        #[trigger] aggregated(aggv, rows1, cfg) && out1 == orange_map(aggv, cfg);
    let aggv2 = choose|aggv: Seq<crate::model::H3Metrics>|
        #[trigger] aggregated(aggv, rows2, cfg) && out2 == orange_map(aggv, cfg);
    crate::aggregate::lemma_aggregate_order_independent(aggv1, rows1, aggv2, rows2, cfg);
    crate::orange::lemma_orange_order_independent(aggv1, aggv2, cfg);
}

/// A day computed without a provider keeps every final delay at its
/// Orange delay, and both sit inside the configured range.
pub proof fn lemma_day_without_provider(
    outm: Seq<crate::model::H3Metrics>,
    rows: Seq<crate::model::ODRecordV>,
    cfg: DelayCfg,
)
    requires
        day_metrics_ok(outm, rows, cfg, false),
        cfg.valid(),
    ensures
        forall|i: int|
            0 <= i < outm.len() ==> {
                let m = #[trigger] outm[i];
                cfg.delay_min <= m.delay_orange <= cfg.delay_max && m.delay_final == m.delay_orange
            },
{
    let aggv = choose|aggv: Seq<crate::model::H3Metrics>|
        #[trigger] aggregated(aggv, rows, cfg) && outm == orange_map(aggv, cfg);
    crate::orange::lemma_orange_delay_bounds(aggv, cfg);
}

/// Compute one day: aggregate the rows, score the Orange delay, let the
/// provider enrich low-confidence cells, persist the history rows, render
/// the GeoJSON.
///
/// Fails exactly on an invalid configuration or on the first bad row. On
/// success the metrics satisfy `day_metrics_ok`; without a provider they
/// are exactly the Orange scoring of the aggregation, so every final delay
/// equals its Orange delay and sits inside the configured range. The
/// GeoJSON is the deterministic rendering of the returned metrics at some
/// timestamp. A sink failure, and only a sink failure, is carried in
/// `sink_error`.
pub fn compute_day<P: TrafficProvider, S: HistorySink>(
    date: &Date,
    od: &Vec<ODRecord>,
    cfg: &DelayCfg,
    traffic: Option<&P>,
    sink: Option<&S>,
) -> (r: Result<DayOutput, PipelineError>)
    requires
        forall|i: int|
            0 <= i < od.deep_view().len() ==> (#[trigger] od.deep_view()[i]).n_trucks
                <= 1_000_000_000_000 && od.deep_view()[i].n_cars <= 1_000_000_000_000,
        agg_budget(od.deep_view(), *cfg) <= 4_000_000_000_000_000_000,
    ensures
        match r {
            Ok(out) => cfg.valid() && rows_ok(od.deep_view(), *cfg) && out.metrics.wf()
                && day_metrics_ok(out.metrics@, od.deep_view(), *cfg, traffic is Some) && (exists|
                ts: Seq<char>,
            |
                out.geojson@ == geojson_spec(out.metrics@, *cfg, ts)) && (sink is None
                ==> out.sink_error is None),
            Err(e) => (!cfg.valid() && e == (PipelineError::InvalidConfig)) || (cfg.valid()
                && exists|i: int|
                0 <= i < od.deep_view().len() && !row_ok(#[trigger] od.deep_view()[i], *cfg) && e
                    == row_error(od.deep_view()[i], i) && (forall|j: int|
                    0 <= j < i ==> row_ok(od.deep_view()[j], *cfg))),
        },
{
    let mut metrics = match aggregate_od_to_h3(od, cfg) {
        Ok(m) => m,
        Err(e) => {
            return Err(e);
        },
    };
    let ghost aggv = metrics@;
    compute_delay_orange(&mut metrics, cfg);
    let ghost base = metrics@;
    proof {
        crate::orange::lemma_orange_preserves_cells(aggv, *cfg);
        crate::orange::lemma_orange_delay_bounds(aggv, *cfg);
    }
    if let Some(p) = traffic {
        enrich_with_traffic_provider(&mut metrics, cfg, p);
        proof {
            assert(crate::model::distinct_cells(metrics@)) by {
                assert(forall|i: int|
                    0 <= i < metrics@.len() ==> (#[trigger] metrics@[i]).cell == base[i].cell);
                if !crate::model::distinct_cells(metrics@) {
                    let (a, b) = choose|a: int, b: int|
                        0 <= a < b < metrics@.len() && (#[trigger] metrics@[a]).cell == (
                        #[trigger] metrics@[b]).cell;
                    assert(base[a].cell == base[b].cell);
                }
            }
        }
    }
    proof {
        // every rendered field is small enough for the two-decimal format
        assert forall|i: int| 0 <= i < metrics@.len() implies {
            let m = #[trigger] metrics@[i];
            m.delay_final <= 400_000 && m.delay_orange <= 400_000 && m.delay_tomtom <= 400_000
                && m.vol_norm <= 400_000 && m.truck_share <= 400_000
        } by {
            let m = metrics@[i];
            if traffic is Some {
                assert(enrich_keeps(base[i], m));
                if eligible(base[i], *cfg) && m != base[i] {
                    let (dp, cp) = choose|dp: u64, cp: u64|
                        m == blended_metrics(base[i], dp, cp, *cfg);
                    assert(m.delay_tomtom <= 2 * cfg.delay_max);
                    assert(m.delay_final <= cfg.delay_max);
                }
            }
        }
    }
    let sink_error: Option<String> = match sink {
        Some(s) => {
            let rows = daily_rows(&metrics, date, cfg);
            match s.persist(&rows) {
                Ok(_) => None,
                Err(e) => Some(e),
            }
        },
        None => None,
    };
    let gj = to_geojson(&metrics, cfg);
    proof {
        if traffic is Some {
            assert(enrich_rel(base, metrics@, *cfg));
            assert(day_metrics_ok(metrics@, od.deep_view(), *cfg, true)) by {
                assert(aggregated(aggv, od.deep_view(), *cfg));
            }
        } else {
            assert(metrics@ == orange_map(aggv, *cfg));
            assert(day_metrics_ok(metrics@, od.deep_view(), *cfg, false)) by {
                assert(aggregated(aggv, od.deep_view(), *cfg));
            }
        }
    }
    Ok(DayOutput { metrics, geojson: gj, sink_error })
}

} // verus!

