//! Folding origin/destination rows into per-cell sums.
//!
//! Each row credits its weighted volume, its raw counts and its confidence
//! mass to the origin cell and to the destination cell; a row from a cell to
//! itself therefore counts twice, by design. The sums are plain integer
//! additions, so they do not depend on the order of the rows.

use vstd::prelude::*;

use crate::cells::{cell_from_text, res_of_cell};
use crate::config::DelayCfg;
use crate::fixed::spec_clamp;
use crate::model::{
    distinct_cells, find_cell, fresh_metrics, lemma_find_cell, H3Metrics, MetricsMap, ODRecord,
    ODRecordV, PipelineError,
};

verus! {

/// The weighted volume of a row, micro units.
pub open spec fn row_vol(r: ODRecordV, cfg: DelayCfg) -> int {
    r.n_trucks * cfg.truck_factor + r.n_cars * cfg.car_factor
}

/// The clamped confidence of a row, milli; absent means full confidence.
pub open spec fn row_conf(r: ODRecordV) -> int {
    spec_clamp(
        match r.conf {
            Some(c) => c as int,
            None => 1000,
        },
        0,
        1000,
    )
}

/// The confidence weight of a row: its volume, at least one vehicle. Micro.
pub open spec fn row_weight(r: ODRecordV, cfg: DelayCfg) -> int {
    if row_vol(r, cfg) >= 1_000_000 {
        row_vol(r, cfg)
    } else {
        1_000_000
    }
}

/// The confidence mass of a row, micro.
pub open spec fn row_conf_mass(r: ODRecordV, cfg: DelayCfg) -> int {
    row_conf(r) * row_weight(r, cfg) / 1000
}

/// Does the row touch cell `c` as origin or destination?
pub open spec fn row_touches(r: ODRecordV, c: u64) -> bool {
    cell_from_text(r.origin_h3) == Some(c) || cell_from_text(r.dest_h3) == Some(c)
}

/// How many times the row credits cell `c`: once as origin, once as
/// destination, twice for a trip from the cell to itself.
pub open spec fn row_cell_mult(r: ODRecordV, c: u64) -> int {
    (if cell_from_text(r.origin_h3) == Some(c) {
        1int
    } else {
        0int
    }) + (if cell_from_text(r.dest_h3) == Some(c) {
        1int
    } else {
        0int
    })
}

/// Both cells of the row parse and sit at the configured resolution.
pub open spec fn row_ok(r: ODRecordV, cfg: DelayCfg) -> bool {
    match (cell_from_text(r.origin_h3), cell_from_text(r.dest_h3)) {
        (Some(o), Some(d)) => res_of_cell(o) == cfg.res as u64 && res_of_cell(d) == cfg.res as u64,
        _ => false,
    }
}

/// Every row parses and sits at the configured resolution.
pub open spec fn rows_ok(rows: Seq<ODRecordV>, cfg: DelayCfg) -> bool {
    forall|i: int| 0 <= i < rows.len() ==> row_ok(#[trigger] rows[i], cfg)
}

/// The error reported for a bad row.
pub open spec fn row_error(r: ODRecordV, i: int) -> PipelineError {
    if cell_from_text(r.origin_h3) is None {
        PipelineError::BadOriginCell { row: i as usize }
    } else if cell_from_text(r.dest_h3) is None {
        PipelineError::BadDestCell { row: i as usize }
    } else {
        PipelineError::ResolutionMismatch { row: i as usize }
    }
}

/// The five sums a cell accumulates.
pub struct CellSums {
    /// Weighted volume, micro.
    pub total: int,
    /// Trucks, milli.
    pub trucks: int,
    /// Cars, milli.
    pub cars: int,
    /// Confidence mass, micro.
    pub conf: int,
    /// Confidence weight, micro.
    pub weight: int,
}

/// No contribution yet.
pub open spec fn zero_sums() -> CellSums {
    CellSums { total: 0, trucks: 0, cars: 0, conf: 0, weight: 0 }
}

/// Componentwise sum.
pub open spec fn add_sums(a: CellSums, b: CellSums) -> CellSums {
    CellSums {
        total: a.total + b.total,
        trucks: a.trucks + b.trucks,
        cars: a.cars + b.cars,
        conf: a.conf + b.conf,
        weight: a.weight + b.weight,
    }
}

/// What one row contributes to cell `c`.
pub open spec fn row_contrib(r: ODRecordV, c: u64, cfg: DelayCfg) -> CellSums {
    let m = row_cell_mult(r, c);
    CellSums {
        total: row_vol(r, cfg) * m,
        trucks: r.n_trucks * m,
        cars: r.n_cars * m,
        conf: row_conf_mass(r, cfg) * m,
        weight: row_weight(r, cfg) * m,
    }
}

/// The sums cell `c` accumulates over all rows.
pub open spec fn cell_sums(rows: Seq<ODRecordV>, c: u64, cfg: DelayCfg) -> CellSums
    decreases rows.len(),
{
    if rows.len() == 0 {
        zero_sums()
    } else {
        add_sums(cell_sums(rows.drop_last(), c, cfg), row_contrib(rows.last(), c, cfg))
    }
}

/// Some row touches cell `c`.
pub open spec fn cell_appears(rows: Seq<ODRecordV>, c: u64) -> bool {
    exists|i: int| 0 <= i < rows.len() && row_touches(#[trigger] rows[i], c)
}

/// The overflow budget of one row: bounds every sum it can contribute to
/// one side (origin or destination) of the fold.
pub open spec fn row_budget(r: ODRecordV, cfg: DelayCfg) -> int {
    row_vol(r, cfg) + 1_000_000 + r.n_trucks + r.n_cars
}

/// The overflow budget of a batch of rows.
pub open spec fn agg_budget(rows: Seq<ODRecordV>, cfg: DelayCfg) -> int
    decreases rows.len(),
{
    if rows.len() == 0 {
        0
    } else {
        agg_budget(rows.drop_last(), cfg) + row_budget(rows.last(), cfg)
    }
}

/// Budgets only grow along a prefix.
pub proof fn lemma_agg_budget_prefix(rows: Seq<ODRecordV>, i: int, cfg: DelayCfg)
    requires
        0 <= i <= rows.len(),
    ensures
        agg_budget(rows.subrange(0, i), cfg) <= agg_budget(rows, cfg),
        agg_budget(rows, cfg) >= 0,
    decreases rows.len(),
{
    if rows.len() == 0 {
        assert(rows.subrange(0, i) =~= rows);
    } else {
        lemma_row_budget_nonneg(rows.last(), cfg);
        if i == rows.len() {
            assert(rows.subrange(0, i) =~= rows);
            lemma_agg_budget_prefix(rows.drop_last(), rows.len() - 1, cfg);
        } else {
            assert(rows.drop_last().subrange(0, i) =~= rows.subrange(0, i));
            lemma_agg_budget_prefix(rows.drop_last(), i, cfg);
        }
    }
}

/// Every term of a row's budget is non-negative.
pub proof fn lemma_row_budget_nonneg(r: ODRecordV, cfg: DelayCfg)
    ensures
        row_budget(r, cfg) >= 1_000_000,
        row_vol(r, cfg) >= 0,
        row_weight(r, cfg) >= 1_000_000,
        0 <= row_conf(r) <= 1000,
        0 <= row_conf_mass(r, cfg) <= row_weight(r, cfg),
{
    assert(r.n_trucks * cfg.truck_factor >= 0) by (nonlinear_arith);
    assert(r.n_cars * cfg.car_factor >= 0) by (nonlinear_arith);
    let w = row_weight(r, cfg);
    let cm = row_conf(r) * w;
    assert(0 <= row_conf(r) * w <= 1000 * w) by (nonlinear_arith)
        requires
            0 <= row_conf(r) <= 1000,
            w >= 0,
    ;
    assert(cm / 1000 <= w) by {
        vstd::arithmetic::div_mod::lemma_div_is_ordered(cm, 1000 * w, 1000);
        assert(1000 * w / 1000 == w) by (nonlinear_arith)
            requires
                w >= 0,
        ;
    }
    assert(cm / 1000 >= 0) by {
        vstd::arithmetic::div_mod::lemma_div_is_ordered(0, cm, 1000);
    }
}

/// Every sum of a cell stays within twice the batch budget.
pub proof fn lemma_cell_sums_bounded(rows: Seq<ODRecordV>, c: u64, cfg: DelayCfg)
    ensures
        0 <= cell_sums(rows, c, cfg).total <= 2 * agg_budget(rows, cfg),
        0 <= cell_sums(rows, c, cfg).trucks <= 2 * agg_budget(rows, cfg),
        0 <= cell_sums(rows, c, cfg).cars <= 2 * agg_budget(rows, cfg),
        0 <= cell_sums(rows, c, cfg).conf <= cell_sums(rows, c, cfg).weight,
        0 <= cell_sums(rows, c, cfg).weight <= 2 * agg_budget(rows, cfg),
    decreases rows.len(),
{
    if rows.len() > 0 {
        lemma_cell_sums_bounded(rows.drop_last(), c, cfg);
        let r = rows.last();
        lemma_row_budget_nonneg(r, cfg);
        let m = row_cell_mult(r, c);
        assert(0 <= m <= 2);
        let b = row_budget(r, cfg);
        assert(0 <= row_vol(r, cfg) * m <= 2 * b) by (nonlinear_arith)
            requires
                0 <= m <= 2,
                0 <= row_vol(r, cfg) <= b,
        ;
        assert(0 <= r.n_trucks * m <= 2 * b) by (nonlinear_arith)
            requires
                0 <= m <= 2,
                0 <= r.n_trucks <= b,
        ;
        assert(0 <= r.n_cars * m <= 2 * b) by (nonlinear_arith)
            requires
                0 <= m <= 2,
                0 <= r.n_cars <= b,
        ;
        assert(0 <= row_weight(r, cfg) * m <= 2 * b) by (nonlinear_arith)
            requires
                0 <= m <= 2,
                0 <= row_weight(r, cfg) <= b,
        ;
        assert(row_conf_mass(r, cfg) * m <= row_weight(r, cfg) * m) by (nonlinear_arith)
            requires
                0 <= m <= 2,
                0 <= row_conf_mass(r, cfg) <= row_weight(r, cfg),
        ;
        assert(0 <= row_conf_mass(r, cfg) * m) by (nonlinear_arith)
            requires
                0 <= m,
                0 <= row_conf_mass(r, cfg),
        ;
        lemma_agg_budget_prefix(rows.drop_last(), rows.len() - 1, cfg);
    }
}

/// Removing an element removes exactly its contribution.
pub proof fn lemma_cell_sums_remove(rows: Seq<ODRecordV>, j: int, c: u64, cfg: DelayCfg)
    requires
        0 <= j < rows.len(),
    ensures
        cell_sums(rows, c, cfg) == add_sums(
            cell_sums(rows.remove(j), c, cfg),
            row_contrib(rows[j], c, cfg),
        ),
    decreases rows.len(),
{
    if j == rows.len() - 1 {
        assert(rows.remove(j) =~= rows.drop_last());
    } else {
        lemma_cell_sums_remove(rows.drop_last(), j, c, cfg);
        assert(rows.remove(j).drop_last() =~= rows.drop_last().remove(j));
        assert(rows.remove(j).last() == rows.last());
        assert(rows.drop_last()[j] == rows[j]);
    }
}

/// The per-cell sums do not depend on the order of the rows.
pub proof fn lemma_cell_sums_permutation(
    rows1: Seq<ODRecordV>,
    rows2: Seq<ODRecordV>,
    c: u64,
    cfg: DelayCfg,
)
    requires
        rows1.to_multiset() == rows2.to_multiset(),
    ensures
        cell_sums(rows1, c, cfg) == cell_sums(rows2, c, cfg),
    decreases rows1.len(),
{
    broadcast use vstd::seq_lib::group_to_multiset_ensures;

    if rows1.len() == 0 {
        assert(rows2.to_multiset().len() == 0);
        assert(rows2 =~= Seq::<ODRecordV>::empty());
    } else {
        let x = rows1.last();
        assert(rows1.to_multiset().count(x) > 0) by {
            assert(rows1.contains(x));
        }
        assert(rows2.contains(x));
        let j = choose|j: int| 0 <= j < rows2.len() && rows2[j] == x;
        assert(rows1.drop_last() =~= rows1.remove(rows1.len() - 1));
        assert(rows1.remove(rows1.len() - 1).to_multiset() =~= rows1.to_multiset().remove(x));
        assert(rows2.remove(j).to_multiset() =~= rows2.to_multiset().remove(x));
        lemma_cell_sums_permutation(rows1.drop_last(), rows2.remove(j), c, cfg);
        lemma_cell_sums_remove(rows2, j, c, cfg);
    }
}

/// A cell no row touches has the zero sums.
pub proof fn lemma_cell_sums_absent(rows: Seq<ODRecordV>, c: u64, cfg: DelayCfg)
    requires
        !cell_appears(rows, c),
    ensures
        cell_sums(rows, c, cfg) == zero_sums(),
    decreases rows.len(),
{
    if rows.len() > 0 {
        assert(!cell_appears(rows.drop_last(), c)) by {
            if cell_appears(rows.drop_last(), c) {
                let i = choose|i: int|
                    0 <= i < rows.drop_last().len() && row_touches(
                        #[trigger] rows.drop_last()[i],
                        c,
                    );
                assert(rows[i] == rows.drop_last()[i]);
                assert(row_touches(rows[i], c));
            }
        }
        lemma_cell_sums_absent(rows.drop_last(), c, cfg);
        let r = rows.last();
        assert(!row_touches(r, c)) by {
            if row_touches(r, c) {
                assert(rows[rows.len() - 1] == r);
            }
        }
        assert(row_cell_mult(r, c) == 0);
        let m = row_cell_mult(r, c);
        assert(row_contrib(r, c, cfg) == zero_sums()) by {
            assert(row_vol(r, cfg) * 0 == 0) by (nonlinear_arith);
            assert(r.n_trucks * 0 == 0) by (nonlinear_arith);
            assert(r.n_cars * 0 == 0) by (nonlinear_arith);
            assert(row_conf_mass(r, cfg) * 0 == 0) by (nonlinear_arith);
            assert(row_weight(r, cfg) * 0 == 0) by (nonlinear_arith);
        }
    }
}

/// The entry carries exactly the sums `s`, and untouched output fields.
pub open spec fn entry_matches(e: H3Metrics, s: CellSums) -> bool {
    &&& e.trips_total == s.total
    &&& e.trips_trucks == s.trucks
    &&& e.trips_cars == s.cars
    &&& e.conf_sum == s.conf
    &&& e.conf_weight == s.weight
    &&& e.delay_orange == 1000
    &&& e.delay_tomtom == 0
    &&& e.delay_final == 1000
    &&& e.truck_share == 0
    &&& e.vol_norm == 0
}

/// The cells of a row are present in the metrics.
pub open spec fn row_cells_present(m: Seq<H3Metrics>, r: ODRecordV) -> bool {
    &&& match cell_from_text(r.origin_h3) {
        Some(o) => find_cell(m, o) >= 0,
        None => true,
    }
    &&& match cell_from_text(r.dest_h3) {
        Some(d) => find_cell(m, d) >= 0,
        None => true,
    }
}

/// The aggregation contract: entries carry exactly the per-cell sums of the
/// rows, and the metrics hold exactly the cells the rows touch.
pub open spec fn aggregated(m: Seq<H3Metrics>, rows: Seq<ODRecordV>, cfg: DelayCfg) -> bool {
    &&& distinct_cells(m)
    &&& forall|k: int|
        0 <= k < m.len() ==> entry_matches(#[trigger] m[k], cell_sums(rows, m[k].cell, cfg))
    &&& forall|k: int| 0 <= k < m.len() ==> cell_appears(rows, (#[trigger] m[k]).cell)
    &&& forall|i: int| 0 <= i < rows.len() ==> row_cells_present(m, #[trigger] rows[i])
}

/// The weighted-volume identity: a cell's total volume is exactly the
/// truck-weighted truck count plus the car-weighted car count.
pub proof fn lemma_total_is_weighted_sum(rows: Seq<ODRecordV>, c: u64, cfg: DelayCfg)
    ensures
        cell_sums(rows, c, cfg).total == cfg.truck_factor * cell_sums(rows, c, cfg).trucks
            + cfg.car_factor * cell_sums(rows, c, cfg).cars,
    decreases rows.len(),
{
    if rows.len() > 0 {
        lemma_total_is_weighted_sum(rows.drop_last(), c, cfg);
        let r = rows.last();
        let m = row_cell_mult(r, c);
        let prev = cell_sums(rows.drop_last(), c, cfg);
        let s = cell_sums(rows, c, cfg);
        assert(s.total == cfg.truck_factor * s.trucks + cfg.car_factor * s.cars)
            by (nonlinear_arith)
            requires
                prev.total == cfg.truck_factor * prev.trucks + cfg.car_factor * prev.cars,
                s.total == prev.total + row_vol(r, cfg) * m,
                s.trucks == prev.trucks + r.n_trucks * m,
                s.cars == prev.cars + r.n_cars * m,
                row_vol(r, cfg) == r.n_trucks * cfg.truck_factor + r.n_cars * cfg.car_factor,
        ;
    }
}

/// Pushing an entry or updating one in place keeps every other cell's
/// position; the pushed or updated cell is found where expected.
proof fn lemma_find_cell_stable(s1: Seq<H3Metrics>, s2: Seq<H3Metrics>, c: u64)
    requires
        s1.len() <= s2.len(),
        forall|k: int| 0 <= k < s1.len() ==> (#[trigger] s2[k]).cell == s1[k].cell,
        forall|k: int| s1.len() <= k < s2.len() ==> (#[trigger] s2[k]).cell != c,
    ensures
        find_cell(s2, c) == find_cell(s1, c) || (find_cell(s1, c) == -1 && find_cell(s2, c) >= 0),
        find_cell(s1, c) >= 0 ==> find_cell(s2, c) == find_cell(s1, c),
        find_cell(s1, c) == -1 ==> find_cell(s2, c) == -1,
{
    lemma_find_cell(s1, c);
    lemma_find_cell(s2, c);
    if find_cell(s1, c) >= 0 {
        let j = find_cell(s1, c);
        assert(s2[j].cell == c);
        if find_cell(s2, c) < j {
            assert(s1[find_cell(s2, c)].cell == c);
        }
    } else {
        if find_cell(s2, c) >= 0 {
            let j = find_cell(s2, c);
            if j < s1.len() {
                assert(s1[j].cell == c);
            }
        }
    }
}

/// The whole effect of crediting one side of a row to `cell`: the entry at
/// `j` gained the row's quantities (starting fresh when the cell was new),
/// everything else is untouched.
pub open spec fn credit_step(
    before: Seq<H3Metrics>,
    after: Seq<H3Metrics>,
    cell: u64,
    j: int,
    vol: u64,
    tn: u64,
    nc: u64,
    cmass: u64,
    w: u64,
) -> bool {
    &&& distinct_cells(after)
    &&& 0 <= j < after.len()
    &&& after[j].cell == cell
    &&& find_cell(after, cell) == j
    &&& (find_cell(before, cell) >= 0 ==> j == find_cell(before, cell) && after.len()
        == before.len())
    &&& (find_cell(before, cell) == -1 ==> j == before.len() && after.len() == before.len() + 1)
    &&& (forall|k: int| 0 <= k < before.len() && k != j ==> after[k] == before[k])
    &&& ({
        let prev = if find_cell(before, cell) >= 0 {
            before[find_cell(before, cell)]
        } else {
            fresh_metrics(cell)
        };
        let e = after[j];
        e.trips_total == prev.trips_total + vol && e.trips_trucks == prev.trips_trucks + tn
            && e.trips_cars == prev.trips_cars + nc && e.conf_sum == prev.conf_sum + cmass
            && e.conf_weight == prev.conf_weight + w && e.delay_orange == prev.delay_orange
            && e.delay_tomtom == prev.delay_tomtom && e.delay_final == prev.delay_final
            && e.truck_share == prev.truck_share && e.vol_norm == prev.vol_norm && e.cell == cell
    })
    &&& (forall|c2: u64| c2 != cell ==> find_cell(after, c2) == find_cell(before, c2))
}

/// Credit one side of a row (origin or destination) to `cell`.
fn credit_cell(
    m: &mut MetricsMap,
    cell: u64,
    vol: u64,
    tn: u64,
    nc: u64,
    cmass: u64,
    w: u64,
) -> (j: usize)
    requires
        old(m).wf(),
        vol <= 4_000_000_000_000_000_000,
        tn <= 4_000_000_000_000_000_000,
        nc <= 4_000_000_000_000_000_000,
        cmass <= 4_000_000_000_000_000_000,
        w <= 4_000_000_000_000_000_000,
        find_cell(old(m)@, cell) >= 0 ==> ({
            let e = old(m)@[find_cell(old(m)@, cell)];
            e.trips_total <= 14_000_000_000_000_000_000 && e.trips_trucks
                <= 14_000_000_000_000_000_000 && e.trips_cars <= 14_000_000_000_000_000_000
                && e.conf_sum <= 14_000_000_000_000_000_000 && e.conf_weight
                <= 14_000_000_000_000_000_000
        }),
    ensures
        final(m).wf(),
        j < final(m)@.len(),
        final(m)@[j as int].cell == cell,
        find_cell(final(m)@, cell) == j,
        find_cell(old(m)@, cell) >= 0 ==> j == find_cell(old(m)@, cell) && final(m)@.len() == old(
            m,
        )@.len(),
        find_cell(old(m)@, cell) == -1 ==> j == old(m)@.len() && final(m)@.len() == old(m)@.len()
            + 1,
        forall|k: int| 0 <= k < old(m)@.len() && k != j ==> final(m)@[k] == old(m)@[k],
        ({
            let prev = if find_cell(old(m)@, cell) >= 0 {
                old(m)@[find_cell(old(m)@, cell)]
            } else {
                fresh_metrics(cell)
            };
            let e = final(m)@[j as int];
            e.trips_total == prev.trips_total + vol && e.trips_trucks == prev.trips_trucks + tn
                && e.trips_cars == prev.trips_cars + nc && e.conf_sum == prev.conf_sum + cmass
                && e.conf_weight == prev.conf_weight + w && e.delay_orange == prev.delay_orange
                && e.delay_tomtom == prev.delay_tomtom && e.delay_final == prev.delay_final
                && e.truck_share == prev.truck_share && e.vol_norm == prev.vol_norm && e.cell
                == cell
        }),
        forall|c2: u64| c2 != cell ==> find_cell(final(m)@, c2) == find_cell(old(m)@, c2),
        credit_step(old(m)@, final(m)@, cell, j as int, vol, tn, nc, cmass, w),
    {
    proof {
        lemma_find_cell(old(m)@, cell);
    }
    let j = m.entry_index(cell);
    let mut e = *m.index(j);
    proof {
        lemma_find_cell(m@, cell);
        if find_cell(old(m)@, cell) >= 0 {
            assert(m@ == old(m)@);
        } else {
            assert(m@ == old(m)@.push(fresh_metrics(cell)));
        }
    }
    e.trips_total = e.trips_total + vol;
    e.trips_trucks = e.trips_trucks + tn;
    e.trips_cars = e.trips_cars + nc;
    e.conf_sum = e.conf_sum + cmass;
    e.conf_weight = e.conf_weight + w;
    let ghost mid = m@;
    m.set_at(j, e);
    proof {
        assert(forall|k: int|
            0 <= k < m@.len() ==> (#[trigger] m@[k]).cell == mid[k].cell);
        assert(distinct_cells(m@));
        lemma_find_cell_stable(mid, m@, cell);
        lemma_find_cell(mid, cell);
        lemma_find_cell(m@, cell);
        if find_cell(mid, cell) < j {
            assert(mid[find_cell(mid, cell)].cell == cell);
        }
        assert(find_cell(m@, cell) == j);
        assert forall|c2: u64| c2 != cell implies find_cell(m@, c2) == find_cell(
            old(m)@,
            c2,
        ) by {
            lemma_find_cell_stable(old(m)@, mid, c2);
            lemma_find_cell_stable(mid, m@, c2);
            lemma_find_cell(old(m)@, c2);
            lemma_find_cell(mid, c2);
            lemma_find_cell(m@, c2);
        }
    }
    j
}

/// Fold the daily origin/destination rows into per-cell metrics.
///
/// Fails on an invalid configuration, on a cell identifier that does not
/// parse, and on a cell away from the configured resolution; the error
/// names the first offending row. On success every entry carries exactly
/// the integer sums of the rows that touch its cell — in particular the
/// weighted-volume identity `trips_total = truck_factor·trips_trucks +
/// car_factor·trips_cars` holds exactly — and the delay fields still sit at
/// their initial values.
#[verifier::rlimit(100)]
#[verifier::spinoff_prover]
pub fn aggregate_od_to_h3(records: &Vec<ODRecord>, cfg: &DelayCfg) -> (r: Result<
    MetricsMap,
    PipelineError,
>)
    requires
        forall|i: int|
            0 <= i < records.deep_view().len() ==> (#[trigger] records.deep_view()[i]).n_trucks
                <= 1_000_000_000_000 && records.deep_view()[i].n_cars <= 1_000_000_000_000,
        agg_budget(records.deep_view(), *cfg) <= 4_000_000_000_000_000_000,
    ensures
        match r {
            Ok(m) => cfg.valid() && rows_ok(records.deep_view(), *cfg) && m.wf() && aggregated(
                m@,
                records.deep_view(),
                *cfg,
            ),
            Err(e) => (!cfg.valid() && e == (PipelineError::InvalidConfig)) || (cfg.valid()
                && exists|i: int|
                0 <= i < records.deep_view().len() && !row_ok(
                    #[trigger] records.deep_view()[i],
                    *cfg,
                ) && e == row_error(records.deep_view()[i], i) && (forall|j: int|
                    0 <= j < i ==> row_ok(records.deep_view()[j], *cfg))),
        },
{
    if !cfg.check() {
        return Err(PipelineError::InvalidConfig);
    }
    let ghost rv = records.deep_view();
    let mut m = MetricsMap::new();
    let n = records.len();
    let mut i: usize = 0;
    while i < n
        invariant
            i <= n,
            n == records@.len(),
            rv == records.deep_view(),
            cfg.valid(),
            forall|t: int|
                0 <= t < rv.len() ==> (#[trigger] rv[t]).n_trucks <= 1_000_000_000_000
                    && rv[t].n_cars <= 1_000_000_000_000,
            agg_budget(rv, *cfg) <= 4_000_000_000_000_000_000,
            forall|j: int| 0 <= j < i ==> row_ok(#[trigger] rv[j], *cfg),
            m.wf(),
            forall|k: int|
                0 <= k < m@.len() ==> entry_matches(
                    #[trigger] m@[k],
                    cell_sums(rv.subrange(0, i as int), m@[k].cell, *cfg),
                ),
            forall|k: int|
                0 <= k < m@.len() ==> cell_appears(rv.subrange(0, i as int), (#[trigger] m@[k]).cell),
            forall|j: int| 0 <= j < i ==> row_cells_present(m@, #[trigger] rv[j]),
        decreases n - i,
    {
        let rec = &records[i];
        proof {
            assert(rec@ == rv[i as int]);
        }
        let o = match crate::cells::parse_cell(rec.origin_h3.as_str()) {
            Some(o) => o,
            None => {
                return Err(PipelineError::BadOriginCell { row: i });
            },
        };
        let d = match crate::cells::parse_cell(rec.dest_h3.as_str()) {
            Some(d) => d,
            None => {
                return Err(PipelineError::BadDestCell { row: i });
            },
        };
        if crate::cells::cell_resolution(o) != cfg.res || crate::cells::cell_resolution(d)
            != cfg.res {
            return Err(PipelineError::ResolutionMismatch { row: i });
        }
        let ghost row = rv[i as int];
        let tn = rec.n_trucks;
        let nc = rec.n_cars;
        proof {
            assert(tn * cfg.truck_factor <= 1_000_000_000_000 * 10_000) by (nonlinear_arith)
                requires
                    0 <= tn <= 1_000_000_000_000,
                    0 <= cfg.truck_factor <= 10_000,
            ;
            assert(nc * cfg.car_factor <= 1_000_000_000_000 * 10_000) by (nonlinear_arith)
                requires
                    0 <= nc <= 1_000_000_000_000,
                    0 <= cfg.car_factor <= 10_000,
            ;
            assert(tn * cfg.truck_factor >= 0) by (nonlinear_arith)
                requires
                    tn >= 0,
                    cfg.truck_factor >= 0,
            ;
            assert(nc * cfg.car_factor >= 0) by (nonlinear_arith)
                requires
                    nc >= 0,
                    cfg.car_factor >= 0,
            ;
        }
        let vol: u64 = tn * cfg.truck_factor + nc * cfg.car_factor;
        let conf_raw: u64 = match rec.conf {
            Some(c) => if c > 1000 {
                1000
            } else {
                c
            },
            None => 1000,
        };
        let w: u64 = if vol >= 1_000_000 {
            vol
        } else {
            1_000_000
        };
        proof {
            assert((conf_raw as int) * (w as int) <= 1000 * 20_000_000_000_000_000)
                by (nonlinear_arith)
                requires
                    0 <= conf_raw <= 1000,
                    0 <= w <= 20_000_000_000_000_000,
            ;
            assert((conf_raw as int) * (w as int) >= 0) by (nonlinear_arith)
                requires
                    conf_raw >= 0,
                    w >= 0,
            ;
        }
        let cmass_wide: u128 = (conf_raw as u128) * (w as u128) / 1000;
        proof {
            assert((conf_raw as u128) * (w as u128) == (conf_raw as int) * (w as int));
            assert((conf_raw as int) * (w as int) <= 1000 * (w as int)) by (nonlinear_arith)
                requires
                    0 <= conf_raw <= 1000,
                    w >= 0,
            ;
            vstd::arithmetic::div_mod::lemma_div_is_ordered(
                (conf_raw as int) * (w as int),
                1000 * (w as int),
                1000,
            );
            assert(1000 * (w as int) / 1000 == w as int) by (nonlinear_arith)
                requires
                    w >= 0,
            ;
        }
        let cmass: u64 = cmass_wide as u64;
        proof {
            assert(row_vol(row, *cfg) == vol);
            assert(row_conf(row) == conf_raw);
            assert(row_weight(row, *cfg) == w);
            assert(row_conf_mass(row, *cfg) == cmass);
            assert(row_budget(row, *cfg) <= 4_000_000_000_000_000_000) by {
                lemma_agg_budget_prefix(rv, i as int, *cfg);
                lemma_budget_term(rv, i as int, *cfg);
            }
            lemma_row_budget_nonneg(row, *cfg);
            // bounds on the entries the two credits will touch
            lemma_cell_sums_bounded(rv.subrange(0, i as int), o, *cfg);
            lemma_cell_sums_bounded(rv.subrange(0, i as int), d, *cfg);
            lemma_agg_budget_prefix(rv, i as int, *cfg);
            lemma_find_cell(m@, o);
        }
        let ghost m0 = m@;
        let ghost prefix = rv.subrange(0, i as int);
        let oj = credit_cell(&mut m, o, vol, tn, nc, cmass, w);
        let ghost m1 = m@;
        proof {
            lemma_find_cell(m1, d);
            if find_cell(m1, d) >= 0 {
                // the destination entry is the origin entry or an untouched one
                let jd = find_cell(m1, d);
                if jd != oj {
                    assert(m1[jd] == m0[jd]);
                }
            }
        }
        let dj = credit_cell(&mut m, d, vol, tn, nc, cmass, w);
        proof {
            let prefix1 = rv.subrange(0, i as int + 1);
            assert(prefix1 =~= prefix.push(row));
            lemma_after_row(
                m0,
                m1,
                m@,
                prefix,
                row,
                o,
                d,
                oj as int,
                dj as int,
                vol,
                tn,
                nc,
                cmass,
                w,
                *cfg,
            );
            assert forall|j: int| 0 <= j < i + 1 implies row_cells_present(
                m@,
                #[trigger] rv[j],
            ) by {
                if j < i {
                    assert(prefix[j] == rv[j]);
                } else {
                    assert(rv[j] == row);
                }
            }
        }
        i = i + 1;
    }
    proof {
        assert(rv.subrange(0, n as int) =~= rv);
    }
    Ok(m)
}

/// After crediting both sides of a row, the metrics match the sums over
/// the prefix extended by that row.
#[verifier::rlimit(100)]
proof fn lemma_after_row(
    m0: Seq<H3Metrics>,
    m1: Seq<H3Metrics>,
    m2: Seq<H3Metrics>,
    prefix: Seq<ODRecordV>,
    row: ODRecordV,
    o: u64,
    d: u64,
    oj: int,
    dj: int,
    vol: u64,
    tn: u64,
    nc: u64,
    cmass: u64,
    w: u64,
    cfg: DelayCfg,
)
    requires
        distinct_cells(m0),
        forall|k: int|
            0 <= k < m0.len() ==> entry_matches(
                #[trigger] m0[k],
                cell_sums(prefix, m0[k].cell, cfg),
            ),
        forall|k: int| 0 <= k < m0.len() ==> cell_appears(prefix, (#[trigger] m0[k]).cell),
        forall|j: int| 0 <= j < prefix.len() ==> row_cells_present(m0, #[trigger] prefix[j]),
        credit_step(m0, m1, o, oj, vol, tn, nc, cmass, w),
        credit_step(m1, m2, d, dj, vol, tn, nc, cmass, w),
        cell_from_text(row.origin_h3) == Some(o),
        cell_from_text(row.dest_h3) == Some(d),
        row_vol(row, cfg) == vol,
        row.n_trucks == tn,
        row.n_cars == nc,
        row_conf_mass(row, cfg) == cmass,
        row_weight(row, cfg) == w,
    ensures
        distinct_cells(m2),
        forall|k: int|
            0 <= k < m2.len() ==> entry_matches(
                #[trigger] m2[k],
                cell_sums(prefix.push(row), m2[k].cell, cfg),
            ),
        forall|k: int| 0 <= k < m2.len() ==> cell_appears(prefix.push(row), (#[trigger] m2[k]).cell),
        forall|j: int|
            0 <= j < prefix.len() ==> row_cells_present(m2, #[trigger] prefix[j]),
        row_cells_present(m2, row),
{
    let prefix1 = prefix.push(row);
    assert(prefix1.drop_last() =~= prefix);
    assert(prefix1.last() == row);
    assert forall|k: int| 0 <= k < m2.len() implies entry_matches(
        #[trigger] m2[k],
        cell_sums(prefix1, m2[k].cell, cfg),
    ) by {
        let c = m2[k].cell;
        assert(cell_sums(prefix1, c, cfg) == add_sums(
            cell_sums(prefix, c, cfg),
            row_contrib(row, c, cfg),
        ));
        if c == o && c == d {
            assert(row_cell_mult(row, c) == 2);
            assert(m2[dj].cell == d);
            assert(k == dj);
            assert(find_cell(m1, d) == oj);
            assert(dj == oj);
            let prev0 = if find_cell(m0, c) >= 0 {
                m0[find_cell(m0, c)]
            } else {
                fresh_metrics(c)
            };
            assert(entry_matches(prev0, cell_sums(prefix, c, cfg))) by {
                if find_cell(m0, c) == -1 {
                    lemma_no_entry_no_appear(m0, prefix, c, cfg);
                } else {
                    lemma_find_cell(m0, c);
                }
            }
            lemma_double_credit_matches(
                prev0,
                m1[oj],
                m2[k],
                cell_sums(prefix, c, cfg),
                row,
                c,
                cfg,
                vol,
                tn,
                nc,
                cmass,
                w,
            );
            assert(entry_matches(m2[k], cell_sums(prefix1, c, cfg)));
        } else if c == o {
            assert(row_cell_mult(row, c) == 1);
            assert(m1[oj].cell == o);
            assert(m2[dj].cell == d);
            assert(oj != dj) by {
                if oj == dj {
                    if find_cell(m1, d) >= 0 {
                        lemma_find_cell(m1, d);
                        assert(m1[dj].cell == d);
                    } else {
                        assert(dj == m1.len());
                    }
                }
            }
            assert(m2[oj] == m1[oj]);
            assert(m2[oj].cell == o);
            assert(k == oj);
            assert(k != dj);
            assert(m2[k] == m1[k]);
            let prev0 = if find_cell(m0, c) >= 0 {
                m0[find_cell(m0, c)]
            } else {
                fresh_metrics(c)
            };
            assert(entry_matches(prev0, cell_sums(prefix, c, cfg))) by {
                if find_cell(m0, c) == -1 {
                    lemma_no_entry_no_appear(m0, prefix, c, cfg);
                } else {
                    lemma_find_cell(m0, c);
                }
            }
            lemma_contrib_single(row, c, cfg);
            assert(entry_matches(m2[k], cell_sums(prefix1, c, cfg)));
        } else if c == d {
            assert(m2[dj].cell == d);
            assert(k == dj);
            assert(row_cell_mult(row, c) == 1);
            let prev1 = if find_cell(m1, c) >= 0 {
                m1[find_cell(m1, c)]
            } else {
                fresh_metrics(c)
            };
            assert(entry_matches(prev1, cell_sums(prefix, c, cfg))) by {
                if find_cell(m1, c) >= 0 {
                    let jd = find_cell(m1, c);
                    lemma_find_cell(m1, c);
                    assert(jd != oj) by {
                        if jd == oj {
                            assert(m1[jd].cell == o);
                        }
                    }
                    assert(m1[jd] == m0[jd]) by {
                        assert(jd < m0.len()) by {
                            if jd >= m0.len() {
                                assert(find_cell(m0, o) == -1 && jd == m0.len() && oj == m0.len());
                            }
                        }
                    }
                    lemma_find_cell(m0, c);
                    assert(find_cell(m0, c) == jd) by {
                        assert(find_cell(m1, c) == find_cell(m0, c));
                    }
                } else {
                    assert(find_cell(m0, c) == -1) by {
                        assert(find_cell(m1, c) == find_cell(m0, c));
                    }
                    lemma_no_entry_no_appear(m0, prefix, c, cfg);
                }
            }
            lemma_contrib_single_dest(row, c, cfg);
            assert(entry_matches(m2[k], cell_sums(prefix1, c, cfg)));
        } else {
            assert(row_cell_mult(row, c) == 0);
            assert(k != oj) by {
                if k == oj {
                    if oj == dj {
                        assert(m2[k].cell == d);
                    } else {
                        assert(m2[k] == m1[k]);
                        assert(m1[oj].cell == o);
                    }
                }
            }
            assert(k != dj) by {
                if k == dj {
                    assert(m2[k].cell == d);
                }
            }
            assert(k < m0.len()) by {
                if k >= m0.len() {
                    if m1.len() > m0.len() {
                        assert(oj == m0.len());
                        if k >= m1.len() {
                            assert(k == dj);
                        }
                    } else {
                        assert(k >= m1.len());
                        assert(k == dj);
                    }
                }
            }
            assert(m1[k] == m0[k]);
            assert(m2[k] == m1[k]);
            lemma_mult_zero_contrib(row, c, cfg);
            assert(entry_matches(m0[k], cell_sums(prefix, c, cfg)));
            assert(entry_matches(m2[k], cell_sums(prefix1, c, cfg)));
        }
        assert(entry_matches(m2[k], cell_sums(prefix1, c, cfg)));
        assert(entry_matches(m2[k], cell_sums(prefix1, m2[k].cell, cfg)));
    }
    assert forall|k: int| 0 <= k < m2.len() implies cell_appears(
        prefix1,
        (#[trigger] m2[k]).cell,
    ) by {
        let c = m2[k].cell;
        if c == o || c == d {
            assert(row_touches(row, c));
            assert(prefix1[prefix.len() as int] == row);
        } else {
            assert(k != oj && k != dj) by {
                if k == dj {
                    assert(m2[k].cell == d);
                }
                if k == oj && oj != dj {
                    assert(m2[k] == m1[k]);
                    assert(m1[oj].cell == o);
                }
                if k == oj && oj == dj {
                    assert(m2[k].cell == d);
                }
            }
            assert(k < m0.len()) by {
                if k >= m0.len() {
                    if m1.len() > m0.len() {
                        assert(oj == m0.len());
                        if k >= m1.len() {
                            assert(k == dj);
                        }
                    } else {
                        assert(k >= m1.len());
                        assert(k == dj);
                    }
                }
            }
            assert(m1[k] == m0[k]);
            assert(m2[k] == m1[k]);
            assert(cell_appears(prefix, c));
            let t = choose|t: int| 0 <= t < prefix.len() && row_touches(#[trigger] prefix[t], c);
            assert(prefix1[t] == prefix[t]);
        }
    }
    assert forall|j: int| 0 <= j < prefix.len() implies row_cells_present(
        m2,
        #[trigger] prefix[j],
    ) by {
        lemma_find_cell(m2, o);
        lemma_find_cell(m2, d);
        assert(row_cells_present(m0, prefix[j]));
        match cell_from_text(prefix[j].origin_h3) {
            Some(oc) => {
                if oc != o && oc != d {
                    assert(find_cell(m2, oc) == find_cell(m1, oc));
                    assert(find_cell(m1, oc) == find_cell(m0, oc));
                }
            },
            None => {},
        }
        match cell_from_text(prefix[j].dest_h3) {
            Some(dc) => {
                if dc != o && dc != d {
                    assert(find_cell(m2, dc) == find_cell(m1, dc));
                    assert(find_cell(m1, dc) == find_cell(m0, dc));
                }
            },
            None => {},
        }
    }
    assert(row_cells_present(m2, row)) by {
        lemma_find_cell(m2, d);
        if o != d {
            assert(find_cell(m2, o) == find_cell(m1, o));
        }
    }
}

/// The weighted-volume invariant of aggregation: every cell's total volume
/// is exactly `truck_factor · trips_trucks + car_factor · trips_cars`.
pub proof fn lemma_aggregate_weighted_volume(
    m: Seq<H3Metrics>,
    rows: Seq<ODRecordV>,
    cfg: DelayCfg,
)
    requires
        aggregated(m, rows, cfg),
    ensures
        forall|k: int|
            0 <= k < m.len() ==> (#[trigger] m[k]).trips_total == cfg.truck_factor
                * m[k].trips_trucks + cfg.car_factor * m[k].trips_cars,
{
    assert forall|k: int|
        0 <= k < m.len() implies (#[trigger] m[k]).trips_total == cfg.truck_factor
        * m[k].trips_trucks + cfg.car_factor * m[k].trips_cars by {
        lemma_total_is_weighted_sum(rows, m[k].cell, cfg);
    }
}

/// Aggregation does not depend on the order of the rows: two aggregations
/// of the same rows in any order hold the same cells with the same sums.
pub proof fn lemma_aggregate_order_independent(
    m1: Seq<H3Metrics>,
    rows1: Seq<ODRecordV>,
    m2: Seq<H3Metrics>,
    rows2: Seq<ODRecordV>,
    cfg: DelayCfg,
)
    requires
        aggregated(m1, rows1, cfg),
        aggregated(m2, rows2, cfg),
        rows1.to_multiset() == rows2.to_multiset(),
    ensures
        forall|c: u64|
            (#[trigger] find_cell(m1, c) >= 0 <==> find_cell(m2, c) >= 0) && (find_cell(m1, c) >= 0
                ==> m1[find_cell(m1, c)] == m2[find_cell(m2, c)]),
{
    broadcast use vstd::seq_lib::group_to_multiset_ensures;

    assert forall|c: u64|
        (#[trigger] find_cell(m1, c) >= 0 <==> find_cell(m2, c) >= 0) && (find_cell(m1, c) >= 0
            ==> m1[find_cell(m1, c)] == m2[find_cell(m2, c)]) by {
        lemma_find_cell(m1, c);
        lemma_find_cell(m2, c);
        if find_cell(m1, c) >= 0 {
            lemma_appears_in_other(m1, rows1, rows2, m2, c, cfg);
        }
        if find_cell(m2, c) >= 0 {
            lemma_appears_in_other(m2, rows2, rows1, m1, c, cfg);
        }
        if find_cell(m1, c) >= 0 && find_cell(m2, c) >= 0 {
            let e1 = m1[find_cell(m1, c)];
            let e2 = m2[find_cell(m2, c)];
            assert(e1.cell == c && e2.cell == c);
            lemma_cell_sums_permutation(rows1, rows2, c, cfg);
            assert(entry_matches(e1, cell_sums(rows1, c, cfg)));
            assert(entry_matches(e2, cell_sums(rows2, c, cfg)));
        }
    }
}

/// A cell with an entry on one side has an entry on the other.
proof fn lemma_appears_in_other(
    ma: Seq<H3Metrics>,
    rowsa: Seq<ODRecordV>,
    rowsb: Seq<ODRecordV>,
    mb: Seq<H3Metrics>,
    c: u64,
    cfg: DelayCfg,
)
    requires
        aggregated(ma, rowsa, cfg),
        aggregated(mb, rowsb, cfg),
        rowsa.to_multiset() == rowsb.to_multiset(),
        find_cell(ma, c) >= 0,
    ensures
        find_cell(mb, c) >= 0,
{
    broadcast use vstd::seq_lib::group_to_multiset_ensures;

    lemma_find_cell(ma, c);
    let k = find_cell(ma, c);
    assert(ma[k].cell == c);
    assert(cell_appears(rowsa, ma[k].cell));
    let t = choose|t: int| 0 <= t < rowsa.len() && row_touches(#[trigger] rowsa[t], c);
    let r = rowsa[t];
    assert(rowsa.contains(r));
    assert(rowsa.to_multiset().count(r) > 0);
    assert(rowsb.contains(r));
    let u = choose|u: int| 0 <= u < rowsb.len() && rowsb[u] == r;
    assert(row_cells_present(mb, rowsb[u]));
}

/// A term of the budget sum is bounded by the whole sum.
proof fn lemma_budget_term(rows: Seq<ODRecordV>, i: int, cfg: DelayCfg)
    requires
        0 <= i < rows.len(),
    ensures
        row_budget(rows[i], cfg) <= agg_budget(rows, cfg),
    decreases rows.len(),
{
    lemma_row_budget_nonneg(rows.last(), cfg);
    if i == rows.len() - 1 {
        lemma_agg_budget_prefix(rows.drop_last(), rows.len() - 1, cfg);
    } else {
        lemma_budget_term(rows.drop_last(), i, cfg);
        assert(rows.drop_last()[i] == rows[i]);
    }
}

/// A row with multiplicity zero contributes nothing.
proof fn lemma_mult_zero_contrib(r: ODRecordV, c: u64, cfg: DelayCfg)
    requires
        row_cell_mult(r, c) == 0,
    ensures
        row_contrib(r, c, cfg) == zero_sums(),
{
    assert(row_vol(r, cfg) * 0 == 0) by (nonlinear_arith);
    assert(r.n_trucks * 0 == 0) by (nonlinear_arith);
    assert(r.n_cars * 0 == 0) by (nonlinear_arith);
    assert(row_conf_mass(r, cfg) * 0 == 0) by (nonlinear_arith);
    assert(row_weight(r, cfg) * 0 == 0) by (nonlinear_arith);
}

/// A row crediting a cell once contributes its quantities once.
proof fn lemma_contrib_single(r: ODRecordV, c: u64, cfg: DelayCfg)
    requires
        row_cell_mult(r, c) == 1,
    ensures
        row_contrib(r, c, cfg) == (CellSums {
            total: row_vol(r, cfg),
            trucks: r.n_trucks as int,
            cars: r.n_cars as int,
            conf: row_conf_mass(r, cfg),
            weight: row_weight(r, cfg),
        }),
{
    assert(row_vol(r, cfg) * 1 == row_vol(r, cfg)) by (nonlinear_arith);
    assert(r.n_trucks * 1 == r.n_trucks) by (nonlinear_arith);
    assert(r.n_cars * 1 == r.n_cars) by (nonlinear_arith);
    assert(row_conf_mass(r, cfg) * 1 == row_conf_mass(r, cfg)) by (nonlinear_arith);
    assert(row_weight(r, cfg) * 1 == row_weight(r, cfg)) by (nonlinear_arith);
}

/// Same statement, kept separate for the destination-side case split.
proof fn lemma_contrib_single_dest(r: ODRecordV, c: u64, cfg: DelayCfg)
    requires
        row_cell_mult(r, c) == 1,
    ensures
        row_contrib(r, c, cfg) == (CellSums {
            total: row_vol(r, cfg),
            trucks: r.n_trucks as int,
            cars: r.n_cars as int,
            conf: row_conf_mass(r, cfg),
            weight: row_weight(r, cfg),
        }),
{
    lemma_contrib_single(r, c, cfg);
}

/// Two credits on top of matching sums match the sums with a double
/// contribution.
proof fn lemma_double_credit_matches(
    prev0: H3Metrics,
    e1: H3Metrics,
    e2: H3Metrics,
    s: CellSums,
    row: ODRecordV,
    c: u64,
    cfg: DelayCfg,
    vol: u64,
    tn: u64,
    nc: u64,
    cmass: u64,
    w: u64,
)
    requires
        entry_matches(prev0, s),
        row_cell_mult(row, c) == 2,
        row_vol(row, cfg) == vol,
        row.n_trucks == tn,
        row.n_cars == nc,
        row_conf_mass(row, cfg) == cmass,
        row_weight(row, cfg) == w,
        e1.trips_total == prev0.trips_total + vol,
        e1.trips_trucks == prev0.trips_trucks + tn,
        e1.trips_cars == prev0.trips_cars + nc,
        e1.conf_sum == prev0.conf_sum + cmass,
        e1.conf_weight == prev0.conf_weight + w,
        e1.delay_orange == prev0.delay_orange,
        e1.delay_tomtom == prev0.delay_tomtom,
        e1.delay_final == prev0.delay_final,
        e1.truck_share == prev0.truck_share,
        e1.vol_norm == prev0.vol_norm,
        e2.trips_total == e1.trips_total + vol,
        e2.trips_trucks == e1.trips_trucks + tn,
        e2.trips_cars == e1.trips_cars + nc,
        e2.conf_sum == e1.conf_sum + cmass,
        e2.conf_weight == e1.conf_weight + w,
        e2.delay_orange == e1.delay_orange,
        e2.delay_tomtom == e1.delay_tomtom,
        e2.delay_final == e1.delay_final,
        e2.truck_share == e1.truck_share,
        e2.vol_norm == e1.vol_norm,
    ensures
        entry_matches(e2, add_sums(s, row_contrib(row, c, cfg))),
{
    lemma_contrib_double(row, c, cfg);
}

/// An intra-cell trip credits its quantities twice.
proof fn lemma_contrib_double(r: ODRecordV, c: u64, cfg: DelayCfg)
    requires
        row_cell_mult(r, c) == 2,
    ensures
        row_contrib(r, c, cfg) == (CellSums {
            total: row_vol(r, cfg) * 2,
            trucks: r.n_trucks * 2,
            cars: r.n_cars * 2,
            conf: row_conf_mass(r, cfg) * 2,
            weight: row_weight(r, cfg) * 2,
        }),
{
}

/// A cell with no entry does not appear among processed rows, so its sums
/// are zero and a fresh entry matches them.
proof fn lemma_no_entry_no_appear(
    m: Seq<H3Metrics>,
    prefix: Seq<ODRecordV>,
    c: u64,
    cfg: DelayCfg,
)
    requires
        find_cell(m, c) == -1,
        forall|k: int| 0 <= k < m.len() ==> cell_appears(prefix, (#[trigger] m[k]).cell),
        forall|j: int| 0 <= j < prefix.len() ==> row_cells_present(m, #[trigger] prefix[j]),
    ensures
        cell_sums(prefix, c, cfg) == zero_sums(),
{
    lemma_find_cell(m, c);
    assert(!cell_appears(prefix, c)) by {
        if cell_appears(prefix, c) {
            let t = choose|t: int| 0 <= t < prefix.len() && row_touches(#[trigger] prefix[t], c);
            assert(row_cells_present(m, prefix[t]));
        }
    }
    lemma_cell_sums_absent(prefix, c, cfg);
}

} // verus!
