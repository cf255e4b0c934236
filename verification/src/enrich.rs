//! Provider enrichment of low-confidence cells.
//!
//! Cells whose volume-weighted confidence falls below the configured
//! threshold may take a real-time traffic sample into account: the
//! provider's delay is clamped, weighted against the Orange delay by the
//! cell's own confidence, and down-weighted further when the provider's
//! confidence is low. A provider that has no answer leaves a cell exactly
//! as it was.

use vstd::prelude::*;

use crate::config::DelayCfg;
use crate::fixed::spec_clamp;
use crate::model::{conf_cell_spec, H3Metrics, MetricsMap};

verus! {

/// A source of real-time traffic samples. `delay_for_cell` returns
/// `Ok(Some((delay_milli, confidence_milli)))` when the provider covers the
/// cell, `Ok(None)` when it has no coverage there, and `Err` when the call
/// failed; errors and missing coverage are treated alike.
pub trait TrafficProvider {
    /// Fetch a `(delay, confidence)` sample for a cell, both milli.
    fn delay_for_cell(&self, cell: u64) -> Result<Option<(u64, u64)>, String>;
}

/// The provider that covers nothing; a day without enrichment.
pub struct NoProvider;

impl TrafficProvider for NoProvider {
    fn delay_for_cell(&self, _cell: u64) -> (r: Result<Option<(u64, u64)>, String>)
        ensures
            r == Result::<Option<(u64, u64)>, String>::Ok(None::<(u64, u64)>),
    {
        Ok(None)
    }
}

/// Is the cell's confidence low enough to consult the provider?
pub open spec fn eligible(m: H3Metrics, cfg: DelayCfg) -> bool {
    conf_cell_spec(m) < cfg.min_conf_for_pure_orange
}

/// A cell after taking the sample `(delay_p, conf_p)` into account: the
/// provider delay is clamped into `[1, 2·delay_max]`, the final delay is
/// the confidence-weighted blend, clamped into the configured range.
/// A provider confidence above one counts as one, one below a half as a
/// half.
pub open spec fn blended_metrics(m: H3Metrics, delay_p: u64, conf_p: u64, cfg: DelayCfg) -> H3Metrics {
    let dtt = spec_clamp(delay_p as int, 1000, 2 * (cfg.delay_max as int));
    let w_o = conf_cell_spec(m);
    let w_t = 1000 - w_o;
    let cp = spec_clamp(conf_p as int, 500, 1000);
    let eff = dtt * cp / 1000;
    let base = w_o * m.delay_orange + w_t * dtt;
    let with_conf = w_o * m.delay_orange + w_t * eff;
    let fin = spec_clamp((base + with_conf) / 2000, cfg.delay_min as int, cfg.delay_max as int);
    H3Metrics { delay_tomtom: dtt as u64, delay_final: fin as u64, ..m }
}

/// Blend one provider sample into one cell's metrics.
pub fn blend_sample(m: &H3Metrics, delay_p: u64, conf_p: u64, cfg: &DelayCfg) -> (r: H3Metrics)
    requires
        cfg.valid(),
        m.delay_orange <= cfg.delay_max,
    ensures
        r == blended_metrics(*m, delay_p, conf_p, *cfg),
{
    let dtt = crate::fixed::clamp_u64(delay_p, 1000, 2 * cfg.delay_max);
    let w_o = m.conf_cell();
    let w_t = 1000 - w_o;
    let cp = crate::fixed::clamp_u64(conf_p, 500, 1000);
    proof {
        assert(dtt * cp <= 200_000 * 1000) by (nonlinear_arith)
            requires
                dtt <= 200_000,
                cp <= 1000,
        ;
        assert(dtt * cp >= 0) by (nonlinear_arith)
            requires
                dtt >= 0,
                cp >= 0,
        ;
    }
    let eff = dtt * cp / 1000;
    proof {
        assert(w_o * m.delay_orange <= 1000 * 100_000) by (nonlinear_arith)
            requires
                w_o <= 1000,
                m.delay_orange <= 100_000,
        ;
        assert(w_o * m.delay_orange >= 0) by (nonlinear_arith)
            requires
                w_o >= 0,
                m.delay_orange >= 0,
        ;
        assert(w_t * dtt <= 1000 * 200_000) by (nonlinear_arith)
            requires
                w_t <= 1000,
                dtt <= 200_000,
        ;
        assert(w_t * dtt >= 0) by (nonlinear_arith)
            requires
                w_t >= 0,
                dtt >= 0,
        ;
        assert(eff <= 200_000) by {
            vstd::arithmetic::div_mod::lemma_div_is_ordered(dtt * cp, 200_000_000int, 1000);
        }
        assert(eff >= 0) by {
            vstd::arithmetic::div_mod::lemma_div_is_ordered(0, dtt * cp, 1000);
        }
        assert(w_t * eff <= 1000 * 200_000) by (nonlinear_arith)
            requires
                w_t <= 1000,
                eff <= 200_000,
        ;
        assert(w_t * eff >= 0) by (nonlinear_arith)
            requires
                w_t >= 0,
                eff >= 0,
        ;
    }
    let base = w_o * m.delay_orange + w_t * dtt;
    let with_conf = w_o * m.delay_orange + w_t * eff;
    let fin = crate::fixed::clamp_u64((base + with_conf) / 2000, cfg.delay_min, cfg.delay_max);
    H3Metrics { delay_tomtom: dtt, delay_final: fin, ..*m }
}

/// Enrichment leaves everything but the two provider-touched delay fields
/// alone.
pub open spec fn enrich_keeps(a: H3Metrics, b: H3Metrics) -> bool {
    &&& b.cell == a.cell
    &&& b.trips_total == a.trips_total
    &&& b.trips_trucks == a.trips_trucks
    &&& b.trips_cars == a.trips_cars
    &&& b.conf_sum == a.conf_sum
    &&& b.conf_weight == a.conf_weight
    &&& b.delay_orange == a.delay_orange
    &&& b.truck_share == a.truck_share
    &&& b.vol_norm == a.vol_norm
}

/// Consult the provider for every low-confidence cell and blend what it
/// answers.
///
/// Confident cells are untouched. An eligible cell is either untouched —
/// the provider had no coverage or failed, which is never fatal — or holds
/// the blend of some sample; in particular a provider that always fails or
/// answers `None` leaves every cell's final delay at its Orange delay.
pub fn enrich_with_traffic_provider<P: TrafficProvider>(
    metrics: &mut MetricsMap,
    cfg: &DelayCfg,
    provider: &P,
)
    requires
        cfg.valid(),
        forall|i: int|
            0 <= i < old(metrics)@.len() ==> (#[trigger] old(metrics)@[i]).delay_orange
                <= cfg.delay_max,
    ensures
        final(metrics)@.len() == old(metrics)@.len(),
        forall|i: int|
            0 <= i < final(metrics)@.len() ==> enrich_keeps(
                old(metrics)@[i],
                #[trigger] final(metrics)@[i],
            ),
        forall|i: int|
            0 <= i < final(metrics)@.len() && !eligible(old(metrics)@[i], *cfg)
                ==> #[trigger] final(metrics)@[i] == old(metrics)@[i],
        forall|i: int|
            0 <= i < final(metrics)@.len() && eligible(old(metrics)@[i], *cfg)
                ==> #[trigger] final(metrics)@[i] == old(metrics)@[i] || exists|dp: u64, cp: u64|
                final(metrics)@[i] == blended_metrics(old(metrics)@[i], dp, cp, *cfg),
{
    let ghost items0 = metrics@;
    let n = metrics.len();
    let mut i: usize = 0;
    while i < n
        invariant
            i <= n,
            n == metrics@.len(),
            items0.len() == n,
            cfg.valid(),
            forall|t: int| 0 <= t < n ==> (#[trigger] items0[t]).delay_orange <= cfg.delay_max,
            forall|t: int| i <= t < n ==> #[trigger] metrics@[t] == items0[t],
            forall|t: int|
                0 <= t < i ==> enrich_keeps(items0[t], #[trigger] metrics@[t]),
            forall|t: int|
                0 <= t < i && !eligible(items0[t], *cfg) ==> #[trigger] metrics@[t] == items0[t],
            forall|t: int|
                0 <= t < i && eligible(items0[t], *cfg) ==> #[trigger] metrics@[t] == items0[t]
                    || exists|dp: u64, cp: u64|
                    metrics@[t] == blended_metrics(items0[t], dp, cp, *cfg),
        decreases n - i,
    {
        let m = *metrics.index(i);
        if m.conf_cell() < cfg.min_conf_for_pure_orange {
            match provider.delay_for_cell(m.cell) {
                Ok(Some((dp, cp))) => {
                    let b = blend_sample(&m, dp, cp, cfg);
                    metrics.set_at(i, b);
                    proof {
                        assert(metrics@[i as int] == blended_metrics(items0[i as int], dp, cp, *cfg));
                    }
                },
                Ok(None) => {},
                Err(_) => {},
            }
        }
        i = i + 1;
    }
}

/// The cells whose confidence calls for enrichment, in entry order.
pub open spec fn eligible_of(items: Seq<H3Metrics>, cfg: DelayCfg) -> Seq<u64>
    decreases items.len(),
{
    if items.len() == 0 {
        Seq::empty()
    } else {
        eligible_of(items.drop_last(), cfg) + (if eligible(items.last(), cfg) {
            seq![items.last().cell]
        } else {
            Seq::empty()
        })
    }
}

/// Snapshot the cells that will consult the provider.
pub fn eligible_cells(metrics: &MetricsMap, cfg: &DelayCfg) -> (r: Vec<u64>)
    ensures
        r@ == eligible_of(metrics@, *cfg),
{
    let n = metrics.len();
    let mut out: Vec<u64> = Vec::new();
    let mut i: usize = 0;
    while i < n
        invariant
            i <= n,
            n == metrics@.len(),
            out@ == eligible_of(metrics@.subrange(0, i as int), *cfg),
        decreases n - i,
    {
        let m = metrics.index(i);
        proof {
            assert(metrics@.subrange(0, i as int + 1).drop_last() =~= metrics@.subrange(
                0,
                i as int,
            ));
            assert(metrics@.subrange(0, i as int + 1).last() == metrics@[i as int]);
        }
        if m.conf_cell() < cfg.min_conf_for_pure_orange {
            out.push(m.cell);
            proof {
                assert(out@ =~= eligible_of(metrics@.subrange(0, i as int + 1), *cfg));
            }
        } else {
            proof {
                assert(out@ =~= eligible_of(metrics@.subrange(0, i as int + 1), *cfg));
            }
        }
        i = i + 1;
    }
    proof {
        assert(metrics@.subrange(0, n as int) =~= metrics@);
    }
    out
}

/// The concatenation of a list of batches.
pub open spec fn concat_batches(batches: Seq<Seq<u64>>) -> Seq<u64>
    decreases batches.len(),
{
    if batches.len() == 0 {
        Seq::empty()
    } else {
        concat_batches(batches.drop_last()) + batches.last()
    }
}

/// Split the provider targets into batches of at most `cap` cells.
///
/// The batches partition the targets in order, and no batch exceeds the
/// concurrency cap: issuing one batch at a time keeps at most `cap`
/// provider calls in flight.
pub fn fanout_batches(targets: &Vec<u64>, cap: usize) -> (r: Vec<Vec<u64>>)
    requires
        cap >= 1,
    ensures
        forall|b: int| 0 <= b < r@.len() ==> (#[trigger] r@[b])@.len() <= cap,
        forall|b: int| 0 <= b < r@.len() ==> (#[trigger] r@[b])@.len() >= 1,
        concat_batches(r@.map_values(|v: Vec<u64>| v@)) == targets@,
{
    let n = targets.len();
    let mut out: Vec<Vec<u64>> = Vec::new();
    let mut cur: Vec<u64> = Vec::new();
    let mut i: usize = 0;
    proof {
        assert(out@.map_values(|v: Vec<u64>| v@) =~= Seq::<Seq<u64>>::empty());
        assert(concat_batches(out@.map_values(|v: Vec<u64>| v@)) + cur@ =~= targets@.subrange(
            0,
            0,
        ));
    }
    while i < n
        invariant
            i <= n,
            n == targets@.len(),
            cap >= 1,
            cur@.len() < cap,
            forall|b: int| 0 <= b < out@.len() ==> (#[trigger] out@[b])@.len() <= cap,
            forall|b: int| 0 <= b < out@.len() ==> (#[trigger] out@[b])@.len() >= 1,
            concat_batches(out@.map_values(|v: Vec<u64>| v@)) + cur@ == targets@.subrange(
                0,
                i as int,
            ),
        decreases n - i,
    {
        let ghost pre = cur@;
        cur.push(targets[i]);
        proof {
            let outv = out@.map_values(|v: Vec<u64>| v@);
            assert(cur@ == pre.push(targets@[i as int]));
            assert((concat_batches(outv) + pre).push(targets@[i as int]) =~= concat_batches(outv)
                + cur@);
            assert(targets@.subrange(0, i as int).push(targets@[i as int]) =~= targets@.subrange(
                0,
                i as int + 1,
            ));
            assert(concat_batches(outv) + cur@ =~= targets@.subrange(0, i as int + 1));
        }
        if cur.len() == cap {
            let ghost outv0 = out@.map_values(|v: Vec<u64>| v@);
            let ghost curv = cur@;
            let full = cur;
            cur = Vec::new();
            out.push(full);
            proof {
                let outv1 = out@.map_values(|v: Vec<u64>| v@);
                assert(outv1.drop_last() =~= outv0);
                assert(outv1.last() == curv);
                assert(concat_batches(outv1) + cur@ =~= targets@.subrange(0, i as int + 1));
            }
        }
        i = i + 1;
    }
    if cur.len() > 0 {
        let ghost outv0 = out@.map_values(|v: Vec<u64>| v@);
        let ghost curv = cur@;
        out.push(cur);
        proof {
            let outv1 = out@.map_values(|v: Vec<u64>| v@);
            assert(outv1.drop_last() =~= outv0);
            assert(outv1.last() == curv);
            assert(targets@.subrange(0, n as int) =~= targets@);
            assert(concat_batches(outv1) =~= targets@);
        }
    } else {
        proof {
            assert(targets@.subrange(0, n as int) =~= targets@);
            assert(concat_batches(out@.map_values(|v: Vec<u64>| v@)) + cur@ =~= targets@);
            assert(concat_batches(out@.map_values(|v: Vec<u64>| v@)) =~= targets@);
        }
    }
    out
}

/// The flow-segment arithmetic of the default provider: with both speeds
/// positive, the delay is free-flow speed over current speed, clamped into
/// `[1, 10]`; the confidence defaults to one and is clamped into `[0, 1]`.
/// Non-positive speeds mean no sample.
pub open spec fn flow_sample_spec(current: u64, free: u64, confidence: Option<u64>) -> Option<
    (u64, u64),
> {
    if current >= 1 && free >= 1 {
        let delay = spec_clamp((free as int) * 1000 / (current as int), 1000, 10_000);
        let conf = spec_clamp(
            match confidence {
                Some(c) => c as int,
                None => 1000,
            },
            0,
            1000,
        );
        Some((delay as u64, conf as u64))
    } else {
        None
    }
}

/// Turn the speeds of a flow-segment answer (milli km/h) into a sample.
pub fn flow_sample(current: u64, free: u64, confidence: Option<u64>) -> (r: Option<(u64, u64)>)
    ensures
        r == flow_sample_spec(current, free, confidence),
{
    if current >= 1 && free >= 1 {
        let ratio = crate::fixed::mul_div_capped(free, 1000, current, 10_000);
        let delay = crate::fixed::clamp_u64(ratio, 1000, 10_000);
        let conf = match confidence {
            Some(c) => if c > 1000 {
                1000
            } else {
                c
            },
            None => 1000,
        };
        Some((delay, conf))
    } else {
        None
    }
}

} // verus!
