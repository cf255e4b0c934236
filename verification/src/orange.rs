//! The volumetric ("Orange") congestion model.
//!
//! Capacity is estimated from the day's own distribution of per-cell
//! volumes: a configured percentile with a floor. Each cell then gets a
//! BPR-style delay `1 + a·(v/c)^b·(1 + γ·truck_share)`, clamped into the
//! configured delay range, and `delay_final` starts out equal to it.

use vstd::prelude::*;

use crate::config::DelayCfg;
use crate::fixed::{pow_milli, pow_milli_exec, spec_clamp, clamp_u64, mul_div_capped};
use crate::model::{H3Metrics, MetricsMap};

verus! {

/// The ordering the volumes are ranked by.
pub open spec fn vol_leq() -> spec_fn(u64, u64) -> bool {
    |x: u64, y: u64| x <= y
}

/// The per-cell volumes, in entry order.
pub open spec fn vols_of(items: Seq<H3Metrics>) -> Seq<u64> {
    items.map_values(|m: H3Metrics| m.trips_total)
}

/// The sum of a volume sequence.
pub open spec fn sum_vols(s: Seq<u64>) -> int
    decreases s.len(),
{
    if s.len() == 0 {
        0
    } else {
        sum_vols(s.drop_last()) + s.last()
    }
}

/// The day's mean volume, micro units, at least one millionth.
pub open spec fn mean_of(items: Seq<H3Metrics>) -> int {
    let n = if items.len() == 0 {
        1int
    } else {
        items.len() as int
    };
    let mean = sum_vols(vols_of(items)) / n;
    if mean >= 1 {
        mean
    } else {
        1
    }
}

/// The rank the capacity percentile picks among `len` sorted volumes.
pub open spec fn percentile_rank(len: int, p: int) -> int {
    ((len - 1) * p + 500) / 1000
}

/// The day's estimated capacity, micro units: the configured percentile of
/// the sorted volumes (the mean when there are no cells), floored by the
/// configured capacity floor and by one millionth.
pub open spec fn capacity_of(items: Seq<H3Metrics>, cfg: DelayCfg) -> int {
    let perc = if items.len() == 0 {
        mean_of(items)
    } else {
        vols_of(items).sort_by(vol_leq())[percentile_rank(items.len() as int, cfg.capacity_percentile as int)] as int
    };
    let floored = if perc >= cfg.capacity_floor {
        perc
    } else {
        cfg.capacity_floor as int
    };
    if floored >= 1 {
        floored
    } else {
        1
    }
}

/// One cell scored by the Orange model: `truck_share`, `vol_norm`,
/// `delay_orange` and `delay_final` are written, everything else is kept.
pub open spec fn orange_out(m: H3Metrics, mean: int, c: int, cfg: DelayCfg) -> H3Metrics {
    let total = if m.trips_total >= 1 {
        m.trips_total as int
    } else {
        1int
    };
    let share = spec_clamp(m.trips_trucks * 1_000_000 / total, 0, 1000);
    let vol_norm = spec_clamp(total * 1000 / mean, 0, 20_000);
    let vc = spec_clamp(total * 1000 / c, 0, cfg.vc_cap as int);
    let hv = 1000 + cfg.truck_gamma * share / 1000;
    let bpr = if vc > 0 {
        cfg.bpr_a * pow_milli(vc, cfg.bpr_b as nat) / 1000
    } else {
        0int
    };
    let delay = spec_clamp(1000 + bpr * hv / 1000, cfg.delay_min as int, cfg.delay_max as int);
    H3Metrics {
        truck_share: share as u64,
        vol_norm: vol_norm as u64,
        delay_orange: delay as u64,
        delay_final: delay as u64,
        ..m
    }
}

/// The whole map scored by the Orange model.
pub open spec fn orange_map(items: Seq<H3Metrics>, cfg: DelayCfg) -> Seq<H3Metrics> {
    items.map_values(|m: H3Metrics| orange_out(m, mean_of(items), capacity_of(items, cfg), cfg))
}

/// A sum of volumes stays under `len` times the largest `u64`.
proof fn lemma_sum_vols_bound(s: Seq<u64>)
    ensures
        0 <= sum_vols(s) <= s.len() * 0xffff_ffff_ffff_ffff,
    decreases s.len(),
{
    if s.len() == 0 {
    } else {
        lemma_sum_vols_bound(s.drop_last());
        assert((s.len() - 1) * 0xffff_ffff_ffff_ffff + 0xffff_ffff_ffff_ffff == s.len()
            * 0xffff_ffff_ffff_ffff) by (nonlinear_arith);
    }
}

/// Insertion sort, tied to the mathematical `sort_by` of the same order.
fn sort_vols(vols: &Vec<u64>) -> (r: Vec<u64>)
    ensures
        r@ == vols@.sort_by(vol_leq()),
        r@.len() == vols@.len(),
{
    let mut out: Vec<u64> = Vec::new();
    let n = vols.len();
    proof {
        broadcast use vstd::seq_lib::group_to_multiset_ensures;

        assert(out@ =~= vols@.subrange(0, 0));
    }
    let mut i: usize = 0;
    while i < n
        invariant
            i <= n,
            n == vols@.len(),
            out@.len() == i,
            vstd::relations::sorted_by(out@, vol_leq()),
            out@.to_multiset() == vols@.subrange(0, i as int).to_multiset(),
        decreases n - i,
    {
        broadcast use vstd::seq_lib::group_to_multiset_ensures;

        let v = vols[i];
        // find the insertion point
        let mut j: usize = 0;
        while j < out.len() && out[j] <= v
            invariant
                j <= out@.len(),
                forall|t: int| 0 <= t < j ==> (#[trigger] out@[t]) <= v,
            decreases out@.len() - j,
        {
            j = j + 1;
        }
        let ghost before = out@;
        out.insert(j, v);
        proof {
            assert(vstd::relations::sorted_by(out@, vol_leq())) by {
                assert(forall|t: int| 0 <= t < j ==> out@[t] == before[t]);
                assert(out@[j as int] == v);
                assert(forall|t: int| j < t < out@.len() ==> out@[t] == before[t - 1]);
                assert(j < out@.len() ==> (j == 0 || before[j - 1] <= v));
                assert(forall|t: int| j < t < out@.len() ==> v <= #[trigger] out@[t]) by {
                    // everything shifted right sits at or above the first
                    // element the scan stopped at, which is above `v`
                    assert(j < out@.len() - 1 ==> !(before[j as int] <= v));
                    assert(forall|a: int, b: int|
                        0 <= a <= b < before.len() ==> vol_leq()(
                            #[trigger] before[a],
                            #[trigger] before[b],
                        ));
                }
            }
            assert(out@ =~= before.subrange(0, j as int).push(v) + before.subrange(
                j as int,
                before.len() as int,
            ));
            assert(before =~= before.subrange(0, j as int) + before.subrange(
                j as int,
                before.len() as int,
            ));
            vstd::seq_lib::lemma_multiset_commutative(
                before.subrange(0, j as int).push(v),
                before.subrange(j as int, before.len() as int),
            );
            vstd::seq_lib::lemma_multiset_commutative(
                before.subrange(0, j as int),
                before.subrange(j as int, before.len() as int),
            );
            assert(before.subrange(0, j as int).push(v).to_multiset() =~= before.subrange(
                0,
                j as int,
            ).to_multiset().insert(v));
            assert(vols@.subrange(0, i as int + 1) =~= vols@.subrange(0, i as int).push(v));
            assert(out@.to_multiset() =~= vols@.subrange(0, i as int + 1).to_multiset());
        }
        i = i + 1;
    }
    proof {
        assert(vols@.subrange(0, n as int) =~= vols@);
        vols@.lemma_sort_by_ensures(vol_leq());
        vstd::seq_lib::lemma_sorted_unique(out@, vols@.sort_by(vol_leq()), vol_leq());
    }
    out
}

/// Score every cell with the Orange model.
///
/// Reads only the aggregated sums, writes only `truck_share`, `vol_norm`,
/// `delay_orange` and `delay_final`; both delays land inside
/// `[delay_min, delay_max]` and start out equal (see
/// `lemma_orange_delay_bounds`). Scoring twice gives what scoring once
/// gives (see `lemma_orange_idempotent`).
pub fn compute_delay_orange(metrics: &mut MetricsMap, cfg: &DelayCfg)
    requires
        cfg.valid(),
    ensures
        final(metrics)@ == orange_map(old(metrics)@, *cfg),
        final(metrics)@.len() == old(metrics)@.len(),
        final(metrics).wf() == old(metrics).wf(),
{
    let ghost items0 = metrics@;
    let n = metrics.len();
    // collect the volumes
    let mut vols: Vec<u64> = Vec::new();
    let mut i: usize = 0;
    while i < n
        invariant
            i <= n,
            n == metrics@.len(),
            metrics@ == items0,
            vols@ =~= vols_of(items0).subrange(0, i as int),
        decreases n - i,
    {
        vols.push(metrics.index(i).trips_total);
        proof {
            assert(vols@ =~= vols_of(items0).subrange(0, i as int + 1));
        }
        i = i + 1;
    }
    proof {
        assert(vols@ =~= vols_of(items0));
    }
    // mean volume
    let mut wsum: u128 = 0;
    let mut i2: usize = 0;
    while i2 < n
        invariant
            i2 <= n,
            n == vols@.len(),
            vols@ == vols_of(items0),
            wsum == sum_vols(vols@.subrange(0, i2 as int)),
            wsum <= (i2 as int) * 0xffff_ffff_ffff_ffff,
        decreases n - i2,
    {
        proof {
            assert(vols@.subrange(0, i2 as int + 1).drop_last() =~= vols@.subrange(0, i2 as int));
            assert((i2 as int) * 0xffff_ffff_ffff_ffff + 0xffff_ffff_ffff_ffff == (i2 as int + 1)
                * 0xffff_ffff_ffff_ffff) by (nonlinear_arith);
        }
        wsum = wsum + (vols[i2] as u128);
        i2 = i2 + 1;
    }
    proof {
        assert(vols@.subrange(0, n as int) =~= vols@);
    }
    let mean: u64 = if n == 0 {
        1
    } else {
        let q: u128 = wsum / (n as u128);
        proof {
            lemma_sum_vols_bound(vols@);
            assert((n as int) * 0xffff_ffff_ffff_ffff / (n as int) == 0xffff_ffff_ffff_ffff)
                by (nonlinear_arith)
                requires
                    n >= 1,
            ;
            vstd::arithmetic::div_mod::lemma_div_is_ordered(
                wsum as int,
                (n as int) * 0xffff_ffff_ffff_ffff,
                n as int,
            );
        }
        let qq = q as u64;
        if qq >= 1 {
            qq
        } else {
            1
        }
    };
    proof {
        assert(mean == mean_of(items0));
    }
    // capacity from the sorted volumes
    let c: u64 = if n == 0 {
        let f = if mean >= cfg.capacity_floor {
            mean
        } else {
            cfg.capacity_floor
        };
        if f >= 1 {
            f
        } else {
            1
        }
    } else {
        let sorted = sort_vols(&vols);
        proof {
            assert(((n - 1) as int) * (cfg.capacity_percentile as int) <= 0xffff_ffff_ffff_ffff
                * 1000) by (nonlinear_arith)
                requires
                    0 <= (n - 1) as int <= 0xffff_ffff_ffff_ffff,
                    0 <= cfg.capacity_percentile <= 1000,
            ;
            assert(((n - 1) as int) * (cfg.capacity_percentile as int) >= 0) by (nonlinear_arith)
                requires
                    n >= 1,
                    cfg.capacity_percentile >= 0,
            ;
        }
        let widx: u128 = ((n - 1) as u128) * (cfg.capacity_percentile as u128) + 500;
        let idx: usize = (widx / 1000) as usize;
        proof {
            assert(((n - 1) as int) * (cfg.capacity_percentile as int) <= ((n - 1) as int) * 1000)
                by (nonlinear_arith)
                requires
                    cfg.capacity_percentile <= 1000,
                    n >= 1,
            ;
            assert((((n - 1) as int) * 1000 + 500) / 1000 <= ((n - 1) as int)) by {
                assert((((n - 1) as int) * 1000 + 500) / 1000 == (n - 1) as int + 500int / 1000) by {
                    vstd::arithmetic::div_mod::lemma_div_multiples_vanish_fancy(
                        (n - 1) as int,
                        500,
                        1000,
                    );
                }
            }
            vstd::arithmetic::div_mod::lemma_div_is_ordered(
                ((n - 1) as int) * (cfg.capacity_percentile as int) + 500,
                ((n - 1) as int) * 1000 + 500,
                1000,
            );
            assert(((n - 1) as int) * (cfg.capacity_percentile as int) >= 0) by (nonlinear_arith)
                requires
                    n >= 1,
                    cfg.capacity_percentile >= 0,
            ;
            assert(idx == percentile_rank(n as int, cfg.capacity_percentile as int));
            assert(idx < n);
        }
        let perc = sorted[idx];
        let f = if perc >= cfg.capacity_floor {
            perc
        } else {
            cfg.capacity_floor
        };
        if f >= 1 {
            f
        } else {
            1
        }
    };
    proof {
        assert(c == capacity_of(items0, *cfg));
    }
    // score each cell
    let mut k: usize = 0;
    while k < n
        invariant
            k <= n,
            n == metrics@.len(),
            metrics@.len() == items0.len(),
            cfg.valid(),
            mean == mean_of(items0),
            mean >= 1,
            c == capacity_of(items0, *cfg),
            c >= 1,
            forall|t: int| k <= t < n ==> metrics@[t] == items0[t],
            forall|t: int|
                0 <= t < k ==> metrics@[t] == orange_out(
                    #[trigger] items0[t],
                    mean_of(items0),
                    capacity_of(items0, *cfg),
                    *cfg,
                ),
        decreases n - k,
    {
        let m = *metrics.index(k);
        let total: u64 = if m.trips_total >= 1 {
            m.trips_total
        } else {
            1
        };
        let share = mul_div_capped(m.trips_trucks, 1_000_000, total, 1000);
        let vol_norm = mul_div_capped(total, 1000, mean, 20_000);
        let vc = mul_div_capped(total, 1000, c, cfg.vc_cap);
        proof {
            assert(cfg.truck_gamma * share <= 10_000 * 1000) by (nonlinear_arith)
                requires
                    cfg.truck_gamma <= 10_000,
                    share <= 1000,
            ;
            assert(cfg.truck_gamma * share >= 0) by (nonlinear_arith)
                requires
                    cfg.truck_gamma >= 0,
                    share >= 0,
            ;
        }
        let hv: u64 = 1000 + cfg.truck_gamma * share / 1000;
        let bpr: u64 = if vc > 0 {
            let p = pow_milli_exec(vc, cfg.bpr_b);
            proof {
                assert(cfg.bpr_a * p <= 100_000 * 100_000_000_000) by (nonlinear_arith)
                    requires
                        cfg.bpr_a <= 100_000,
                        p <= 100_000_000_000,
                ;
                assert(cfg.bpr_a * p >= 0) by (nonlinear_arith)
                    requires
                        cfg.bpr_a >= 0,
                        p >= 0,
                ;
            }
            cfg.bpr_a * p / 1000
        } else {
            0
        };
        proof {
            assert(bpr * hv <= 10_000_000_000_000 * 11_000) by (nonlinear_arith)
                requires
                    bpr <= 10_000_000_000_000,
                    hv <= 11_000,
            ;
            assert(bpr * hv >= 0) by (nonlinear_arith)
                requires
                    bpr >= 0,
                    hv >= 0,
            ;
        }
        let delay = clamp_u64(1000 + bpr * hv / 1000, cfg.delay_min, cfg.delay_max);
        let scored = H3Metrics {
            truck_share: share,
            vol_norm,
            delay_orange: delay,
            delay_final: delay,
            ..m
        };
        metrics.set_at(k, scored);
        proof {
            assert(scored == orange_out(items0[k as int], mean_of(items0), capacity_of(items0, *cfg), *cfg));
        }
        k = k + 1;
    }
    proof {
        assert(metrics@ =~= orange_map(items0, *cfg));
        assert(vstd::relations::sorted_by(Seq::<u64>::empty(), vol_leq()));
        lemma_orange_preserves_cells(items0, *cfg);
    }
}

/// Scoring keeps every cell id, so well-formedness is unchanged.
pub proof fn lemma_orange_preserves_cells(items: Seq<H3Metrics>, cfg: DelayCfg)
    ensures
        orange_map(items, cfg).len() == items.len(),
        forall|i: int|
            0 <= i < items.len() ==> (#[trigger] orange_map(items, cfg)[i]).cell == items[i].cell,
        crate::model::distinct_cells(orange_map(items, cfg)) == crate::model::distinct_cells(items),
{
    let out = orange_map(items, cfg);
    assert(forall|i: int| 0 <= i < items.len() ==> (#[trigger] out[i]).cell == items[i].cell);
    if crate::model::distinct_cells(items) && !crate::model::distinct_cells(out) {
        let (i, j) = choose|i: int, j: int|
            0 <= i < j < out.len() && (#[trigger] out[i]).cell == (#[trigger] out[j]).cell;
        assert(items[i].cell == items[j].cell);
    }
    if !crate::model::distinct_cells(items) && crate::model::distinct_cells(out) {
        let (i, j) = choose|i: int, j: int|
            0 <= i < j < items.len() && (#[trigger] items[i]).cell == (#[trigger] items[j]).cell;
        assert(out[i].cell == out[j].cell);
    }
}

/// After scoring, both delays sit inside the configured range and are
/// equal: the final delay of a day without a provider is the Orange delay.
pub proof fn lemma_orange_delay_bounds(items: Seq<H3Metrics>, cfg: DelayCfg)
    requires
        cfg.valid(),
    ensures
        forall|i: int|
            0 <= i < orange_map(items, cfg).len() ==> {
                let m = #[trigger] orange_map(items, cfg)[i];
                cfg.delay_min <= m.delay_orange <= cfg.delay_max && m.delay_final == m.delay_orange
            },
{
}

/// Two sequences with pointwise equal cells agree on every cell lookup.
proof fn lemma_find_cell_same_cells(s1: Seq<H3Metrics>, s2: Seq<H3Metrics>, c: u64)
    requires
        s1.len() == s2.len(),
        forall|i: int| 0 <= i < s1.len() ==> (#[trigger] s1[i]).cell == s2[i].cell,
    ensures
        crate::model::find_cell(s1, c) == crate::model::find_cell(s2, c),
    decreases s1.len(),
{
    if s1.len() > 0 {
        let t1 = s1.subrange(1, s1.len() as int);
        let t2 = s2.subrange(1, s2.len() as int);
        assert(forall|i: int| 0 <= i < t1.len() ==> (#[trigger] t1[i]).cell == t2[i].cell);
        lemma_find_cell_same_cells(t1, t2, c);
    }
}

/// Removing an entry keeps the cells pairwise distinct.
proof fn lemma_distinct_remove(s: Seq<H3Metrics>, j: int)
    requires
        crate::model::distinct_cells(s),
        0 <= j < s.len(),
    ensures
        crate::model::distinct_cells(s.remove(j)),
{
    let r = s.remove(j);
    assert(forall|t: int| 0 <= t < j ==> r[t] == s[t]);
    assert(forall|t: int| j <= t < r.len() ==> r[t] == s[t + 1]);
    if !crate::model::distinct_cells(r) {
        let (a, b) = choose|a: int, b: int|
            0 <= a < b < r.len() && (#[trigger] r[a]).cell == (#[trigger] r[b]).cell;
        let a2 = if a < j {
            a
        } else {
            a + 1
        };
        let b2 = if b < j {
            b
        } else {
            b + 1
        };
        assert(s[a2].cell == s[b2].cell && a2 < b2);
    }
}

/// Looking a cell up after removing another entry finds the same metrics.
proof fn lemma_find_cell_remove(s: Seq<H3Metrics>, j: int, c: u64)
    requires
        crate::model::distinct_cells(s),
        0 <= j < s.len(),
        s[j].cell != c,
    ensures
        crate::model::find_cell(s.remove(j), c) >= 0 <==> crate::model::find_cell(s, c) >= 0,
        crate::model::find_cell(s, c) >= 0 ==> s.remove(j)[crate::model::find_cell(s.remove(j), c)]
            == s[crate::model::find_cell(s, c)],
        crate::model::distinct_cells(s.remove(j)),
{
    let r = s.remove(j);
    crate::model::lemma_find_cell(s, c);
    crate::model::lemma_find_cell(r, c);
    assert(forall|t: int| 0 <= t < j ==> r[t] == s[t]);
    assert(forall|t: int| j <= t < r.len() ==> r[t] == s[t + 1]);
    assert(crate::model::distinct_cells(r)) by {
        if !crate::model::distinct_cells(r) {
            let (a, b) = choose|a: int, b: int|
                0 <= a < b < r.len() && (#[trigger] r[a]).cell == (#[trigger] r[b]).cell;
            let a2 = if a < j {
                a
            } else {
                a + 1
            };
            let b2 = if b < j {
                b
            } else {
                b + 1
            };
            assert(s[a2].cell == s[b2].cell && a2 < b2);
        }
    }
    if crate::model::find_cell(s, c) >= 0 {
        let f = crate::model::find_cell(s, c);
        assert(f != j);
        let f2 = if f < j {
            f
        } else {
            f - 1
        };
        assert(r[f2] == s[f]);
        assert(r[f2].cell == c);
        if crate::model::find_cell(r, c) == -1 {
            assert(r[f2].cell != c);
        }
        let g = crate::model::find_cell(r, c);
        assert(r[g].cell == c);
        let g2 = if g < j {
            g
        } else {
            g + 1
        };
        assert(s[g2].cell == c);
        assert(g2 == f);
        assert(r[g] == s[f]);
    } else {
        if crate::model::find_cell(r, c) >= 0 {
            let g = crate::model::find_cell(r, c);
            let g2 = if g < j {
                g
            } else {
                g + 1
            };
            assert(s[g2].cell == c);
        }
    }
}

/// Two well-formed maps holding the same cells with equal entries carry
/// the same entries as a multiset.
proof fn lemma_entries_multiset(m1: Seq<H3Metrics>, m2: Seq<H3Metrics>)
    requires
        crate::model::distinct_cells(m1),
        crate::model::distinct_cells(m2),
        forall|c: u64|
            (#[trigger] crate::model::find_cell(m1, c) >= 0 <==> crate::model::find_cell(m2, c)
                >= 0) && (crate::model::find_cell(m1, c) >= 0 ==> m1[crate::model::find_cell(
                m1,
                c,
            )] == m2[crate::model::find_cell(m2, c)]),
    ensures
        m1.to_multiset() == m2.to_multiset(),
    decreases m1.len(),
{
    broadcast use vstd::seq_lib::group_to_multiset_ensures;

    if m1.len() == 0 {
        if m2.len() > 0 {
            crate::model::lemma_find_cell(m2, m2[0].cell);
            crate::model::lemma_find_cell(m1, m2[0].cell);
            if crate::model::find_cell(m2, m2[0].cell) == -1 {
                assert(m2[0].cell != m2[0].cell);
            }
        }
        assert(m2 =~= Seq::<H3Metrics>::empty());
        assert(m1.to_multiset() =~= m2.to_multiset());
    } else if m1.len() > 0 {
        let e = m1.last();
        let k = m1.len() - 1;
        crate::model::lemma_find_cell(m1, e.cell);
        assert(crate::model::find_cell(m1, e.cell) >= 0) by {
            if crate::model::find_cell(m1, e.cell) == -1 {
                assert(m1[k].cell != e.cell);
            }
        }
        let f1 = crate::model::find_cell(m1, e.cell);
        assert(f1 == k) by {
            if f1 < k {
                assert(m1[f1].cell == m1[k].cell);
            }
        }
        let f2 = crate::model::find_cell(m2, e.cell);
        crate::model::lemma_find_cell(m2, e.cell);
        assert(f2 >= 0 && m2[f2] == e);
        let r1 = m1.drop_last();
        let r2 = m2.remove(f2);
        assert(r1 =~= m1.remove(k));
        assert(m1.remove(k).to_multiset() =~= m1.to_multiset().remove(e));
        assert(r2.to_multiset() =~= m2.to_multiset().remove(e));
        // the reduced maps still hold the same cells with equal entries
        assert(crate::model::distinct_cells(r1)) by {
            assert(forall|t: int| 0 <= t < r1.len() ==> r1[t] == m1[t]);
        }
        lemma_distinct_remove(m2, f2);
        assert forall|c: u64|
            (#[trigger] crate::model::find_cell(r1, c) >= 0 <==> crate::model::find_cell(r2, c)
                >= 0) && (crate::model::find_cell(r1, c) >= 0 ==> r1[crate::model::find_cell(
                r1,
                c,
            )] == r2[crate::model::find_cell(r2, c)]) by {
            crate::model::lemma_find_cell(r1, c);
            crate::model::lemma_find_cell(r2, c);
            crate::model::lemma_find_cell(m1, c);
            crate::model::lemma_find_cell(m2, c);
            if c == e.cell {
                // gone from both sides
                if crate::model::find_cell(r1, c) >= 0 {
                    let g = crate::model::find_cell(r1, c);
                    assert(m1[g].cell == c && g < k);
                    assert(m1[k].cell == c);
                }
                if crate::model::find_cell(r2, c) >= 0 {
                    let g = crate::model::find_cell(r2, c);
                    let g2 = if g < f2 {
                        g
                    } else {
                        g + 1
                    };
                    assert(forall|t: int| 0 <= t < f2 ==> r2[t] == m2[t]);
                    assert(forall|t: int| f2 <= t < r2.len() ==> r2[t] == m2[t + 1]);
                    assert(m2[g2].cell == c && g2 != f2);
                    assert(m2[f2].cell == c);
                }
            } else {
                lemma_find_cell_remove(m2, f2, c);
                // dropping the last entry does not disturb lookups of other cells
                assert(crate::model::find_cell(r1, c) >= 0 <==> crate::model::find_cell(m1, c)
                    >= 0) by {
                    assert(forall|t: int| 0 <= t < r1.len() ==> r1[t] == m1[t]);
                    if crate::model::find_cell(m1, c) >= 0 {
                        let f = crate::model::find_cell(m1, c);
                        assert(f != k) by {
                            if f == k {
                                assert(m1[k].cell == c);
                            }
                        }
                        assert(r1[f].cell == c);
                        if crate::model::find_cell(r1, c) == -1 {
                            assert(r1[f].cell != c);
                        }
                    }
                    if crate::model::find_cell(r1, c) >= 0 {
                        let f = crate::model::find_cell(r1, c);
                        assert(m1[f].cell == c);
                    }
                }
                if crate::model::find_cell(r1, c) >= 0 {
                    let f = crate::model::find_cell(r1, c);
                    assert(forall|t: int| 0 <= t < r1.len() ==> r1[t] == m1[t]);
                    assert(m1[f].cell == c);
                    assert(crate::model::find_cell(m1, c) == f) by {
                        let f0 = crate::model::find_cell(m1, c);
                        if f0 < f {
                            assert(m1[f0].cell == c);
                            assert(r1[f0].cell == c);
                        }
                        if f0 > f {
                            assert(m1[f].cell != c);
                        }
                    }
                    assert(r1[f] == m1[f]);
                }
            }
        }
        lemma_entries_multiset(r1, r2);
        assert(m1.to_multiset().remove(e) =~= m2.to_multiset().remove(e));
        assert(m1.to_multiset().count(e) > 0);
        assert(m2.to_multiset().count(e) > 0) by {
            assert(m2.contains(e));
        }
        assert(m1.to_multiset() =~= m2.to_multiset()) by {
            assert(forall|x: H3Metrics|
                x != e ==> #[trigger] m1.to_multiset().count(x) == m1.to_multiset().remove(
                    e,
                ).count(x) && m2.to_multiset().count(x) == m2.to_multiset().remove(e).count(x));
            assert(m1.to_multiset().count(e) == m1.to_multiset().remove(e).count(e) + 1);
            assert(m2.to_multiset().count(e) == m2.to_multiset().remove(e).count(e) + 1);
        }
    }
}

/// A permutation of the entries is a permutation of the volumes.
proof fn lemma_vols_multiset(m1: Seq<H3Metrics>, m2: Seq<H3Metrics>)
    requires
        m1.to_multiset() == m2.to_multiset(),
    ensures
        vols_of(m1).to_multiset() == vols_of(m2).to_multiset(),
    decreases m1.len(),
{
    broadcast use vstd::seq_lib::group_to_multiset_ensures;

    if m1.len() == 0 {
        assert(m1.to_multiset().len() == 0);
        assert(m2.to_multiset().len() == m2.len());
        assert(m2 =~= Seq::<H3Metrics>::empty());
        assert(vols_of(m1) =~= Seq::<u64>::empty());
        assert(vols_of(m2) =~= Seq::<u64>::empty());
        assert(vols_of(m1).to_multiset() =~= vols_of(m2).to_multiset());
    } else {
        let e = m1.last();
        assert(m1.to_multiset().count(e) > 0) by {
            assert(m1.contains(e));
        }
        assert(m2.contains(e));
        let j = choose|j: int| 0 <= j < m2.len() && m2[j] == e;
        let r1 = m1.drop_last();
        let r2 = m2.remove(j);
        assert(r1 =~= m1.remove(m1.len() - 1));
        assert(r1.to_multiset() =~= m1.to_multiset().remove(e));
        assert(r2.to_multiset() =~= m2.to_multiset().remove(e));
        lemma_vols_multiset(r1, r2);
        assert(vols_of(m1) =~= vols_of(r1).push(e.trips_total));
        assert(vols_of(r2) =~= vols_of(m2).remove(j));
        assert(vols_of(m2).remove(j).to_multiset() =~= vols_of(m2).to_multiset().remove(
            e.trips_total,
        )) by {
            assert(vols_of(m2)[j] == e.trips_total);
        }
        assert(vols_of(m1).to_multiset() =~= vols_of(r1).to_multiset().insert(e.trips_total));
        assert(vols_of(m2).to_multiset().count(e.trips_total) > 0) by {
            assert(vols_of(m2)[j] == e.trips_total);
            assert(vols_of(m2).contains(e.trips_total));
        }
        assert(vols_of(m1).to_multiset() =~= vols_of(m2).to_multiset()) by {
            assert(forall|x: u64|
                x != e.trips_total ==> #[trigger] vols_of(m2).to_multiset().count(x) == vols_of(
                    r2,
                ).to_multiset().count(x));
            assert(vols_of(m2).to_multiset().count(e.trips_total) == vols_of(r2).to_multiset().count(
                e.trips_total,
            ) + 1);
        }
    }
}

/// Removing a volume removes exactly its term from the sum.
proof fn lemma_sum_vols_remove(s: Seq<u64>, j: int)
    requires
        0 <= j < s.len(),
    ensures
        sum_vols(s) == sum_vols(s.remove(j)) + s[j],
    decreases s.len(),
{
    if j == s.len() - 1 {
        assert(s.remove(j) =~= s.drop_last());
    } else {
        lemma_sum_vols_remove(s.drop_last(), j);
        assert(s.remove(j).drop_last() =~= s.drop_last().remove(j));
        assert(s.remove(j).last() == s.last());
        assert(s.drop_last()[j] == s[j]);
    }
}

/// The sum of volumes does not depend on their order.
proof fn lemma_sum_vols_permutation(v1: Seq<u64>, v2: Seq<u64>)
    requires
        v1.to_multiset() == v2.to_multiset(),
    ensures
        sum_vols(v1) == sum_vols(v2),
    decreases v1.len(),
{
    broadcast use vstd::seq_lib::group_to_multiset_ensures;

    if v1.len() == 0 {
        assert(v1.to_multiset().len() == 0);
        assert(v2.to_multiset().len() == v2.len());
        assert(v2 =~= Seq::<u64>::empty());
    } else {
        let x = v1.last();
        assert(v1.to_multiset().count(x) > 0) by {
            assert(v1.contains(x));
        }
        assert(v2.contains(x));
        let j = choose|j: int| 0 <= j < v2.len() && v2[j] == x;
        assert(v1.drop_last() =~= v1.remove(v1.len() - 1));
        assert(v1.remove(v1.len() - 1).to_multiset() =~= v1.to_multiset().remove(x));
        assert(v2.remove(j).to_multiset() =~= v2.to_multiset().remove(x));
        lemma_sum_vols_permutation(v1.drop_last(), v2.remove(j));
        lemma_sum_vols_remove(v2, j);
    }
}

/// Scoring two well-formed maps that hold the same cells with equal
/// entries gives maps that again hold the same cells with equal entries:
/// the whole volumetric model is independent of entry order.
pub proof fn lemma_orange_order_independent(m1: Seq<H3Metrics>, m2: Seq<H3Metrics>, cfg: DelayCfg)
    requires
        crate::model::distinct_cells(m1),
        crate::model::distinct_cells(m2),
        forall|c: u64|
            (#[trigger] crate::model::find_cell(m1, c) >= 0 <==> crate::model::find_cell(m2, c)
                >= 0) && (crate::model::find_cell(m1, c) >= 0 ==> m1[crate::model::find_cell(
                m1,
                c,
            )] == m2[crate::model::find_cell(m2, c)]),
    ensures
        forall|c: u64|
            (#[trigger] crate::model::find_cell(orange_map(m1, cfg), c) >= 0
                <==> crate::model::find_cell(orange_map(m2, cfg), c) >= 0) && (
            crate::model::find_cell(orange_map(m1, cfg), c) >= 0 ==> orange_map(
                m1,
                cfg,
            )[crate::model::find_cell(orange_map(m1, cfg), c)] == orange_map(
                m2,
                cfg,
            )[crate::model::find_cell(orange_map(m2, cfg), c)]),
{
    lemma_entries_multiset(m1, m2);
    lemma_vols_multiset(m1, m2);
    lemma_sum_vols_permutation(vols_of(m1), vols_of(m2));
    assert(m1.len() == m2.len()) by {
        broadcast use vstd::seq_lib::group_to_multiset_ensures;

        assert(m1.to_multiset().len() == m1.len());
        assert(m2.to_multiset().len() == m2.len());
    }
    assert(mean_of(m1) == mean_of(m2));
    assert(capacity_of(m1, cfg) == capacity_of(m2, cfg)) by {
        if m1.len() > 0 {
            vols_of(m1).lemma_sort_by_ensures(vol_leq());
            vols_of(m2).lemma_sort_by_ensures(vol_leq());
            vstd::seq_lib::lemma_sorted_unique(
                vols_of(m1).sort_by(vol_leq()),
                vols_of(m2).sort_by(vol_leq()),
                vol_leq(),
            );
        }
    }
    let o1 = orange_map(m1, cfg);
    let o2 = orange_map(m2, cfg);
    assert forall|c: u64|
        (#[trigger] crate::model::find_cell(o1, c) >= 0 <==> crate::model::find_cell(o2, c) >= 0)
            && (crate::model::find_cell(o1, c) >= 0 ==> o1[crate::model::find_cell(o1, c)]
            == o2[crate::model::find_cell(o2, c)]) by {
        assert(forall|i: int| 0 <= i < m1.len() ==> (#[trigger] o1[i]).cell == m1[i].cell);
        assert(forall|i: int| 0 <= i < m2.len() ==> (#[trigger] o2[i]).cell == m2[i].cell);
        lemma_find_cell_same_cells(o1, m1, c);
        lemma_find_cell_same_cells(o2, m2, c);
        if crate::model::find_cell(m1, c) >= 0 {
            let f1 = crate::model::find_cell(m1, c);
            let f2 = crate::model::find_cell(m2, c);
            crate::model::lemma_find_cell(m1, c);
            crate::model::lemma_find_cell(m2, c);
            assert(o1[f1] == orange_out(m1[f1], mean_of(m1), capacity_of(m1, cfg), cfg));
            assert(o2[f2] == orange_out(m2[f2], mean_of(m2), capacity_of(m2, cfg), cfg));
            assert(m1[f1] == m2[f2]);
        }
    }
}

/// Scoring is idempotent: scoring a scored map changes nothing, because
/// the model reads only the aggregated sums, which scoring keeps.
pub proof fn lemma_orange_idempotent(items: Seq<H3Metrics>, cfg: DelayCfg)
    ensures
        orange_map(orange_map(items, cfg), cfg) == orange_map(items, cfg),
{
    let once = orange_map(items, cfg);
    let twice = orange_map(once, cfg);
    assert(vols_of(once) =~= vols_of(items));
    assert(mean_of(once) == mean_of(items));
    assert(capacity_of(once, cfg) == capacity_of(items, cfg));
    assert forall|i: int| 0 <= i < twice.len() implies twice[i] == once[i] by {
        let a = orange_out(items[i], mean_of(items), capacity_of(items, cfg), cfg);
        let b = orange_out(a, mean_of(items), capacity_of(items, cfg), cfg);
        assert(a.trips_total == items[i].trips_total);
        assert(a.trips_trucks == items[i].trips_trucks);
        assert(b == a);
    }
    assert(twice =~= once);
}

} // verus!
