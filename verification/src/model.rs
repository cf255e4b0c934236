//! Data model of the daily delay pipeline.

use vstd::prelude::*;

use crate::dates::Date;
use crate::fixed::spec_clamp;

verus! {

/// A fatal error of the pipeline: bad configuration or bad input. Provider
/// trouble is never fatal and sink trouble is carried separately.
#[derive(Clone, Copy, PartialEq, Eq, Structural, Debug)]
pub enum PipelineError {
    /// The configuration is outside the supported ranges.
    InvalidConfig,
    /// The origin cell of the given row is no valid cell identifier.
    BadOriginCell { row: usize },
    /// The destination cell of the given row is no valid cell identifier.
    BadDestCell { row: usize },
    /// A cell of the given row is not at the configured resolution.
    ResolutionMismatch { row: usize },
}

impl PipelineError {
    /// A short description of the error.
    pub fn message(&self) -> String {
        match self {
            PipelineError::InvalidConfig => "invalid pipeline configuration".to_owned(),
            PipelineError::BadOriginCell { .. } => "invalid origin cell identifier".to_owned(),
            PipelineError::BadDestCell { .. } => "invalid destination cell identifier".to_owned(),
            PipelineError::ResolutionMismatch { .. } => {
                "cell not at the configured resolution".to_owned()
            },
        }
    }
}

/// One origin/destination row of the daily table. Counts are in milli
/// vehicles (1000 = one vehicle), the confidence in milli within [0, 1].
#[derive(Clone, Debug)]
pub struct ODRecord {
    /// Day of the trips.
    pub date: Date,
    /// Origin cell identifier, hexadecimal text.
    pub origin_h3: String,
    /// Destination cell identifier, hexadecimal text.
    pub dest_h3: String,
    /// Daily truck count, milli.
    pub n_trucks: u64,
    /// Daily car count, milli.
    pub n_cars: u64,
    /// Confidence of the row, milli; absent means full confidence.
    pub conf: Option<u64>,
}

/// The mathematical image of an `ODRecord`.
pub struct ODRecordV {
    pub date: Date,
    pub origin_h3: Seq<char>,
    pub dest_h3: Seq<char>,
    pub n_trucks: u64,
    pub n_cars: u64,
    pub conf: Option<u64>,
}

impl View for ODRecord {
    type V = ODRecordV;

    open spec fn view(&self) -> ODRecordV {
        ODRecordV {
            date: self.date,
            origin_h3: self.origin_h3@,
            dest_h3: self.dest_h3@,
            n_trucks: self.n_trucks,
            n_cars: self.n_cars,
            conf: self.conf,
        }
    }
}

impl DeepView for ODRecord {
    type V = ODRecordV;

    open spec fn deep_view(&self) -> ODRecordV {
        self.view()
    }
}

/// Per-cell metrics of one day. Volume-like sums (`trips_total`,
/// `conf_sum`, `conf_weight`) are in micro units; counts in milli vehicles;
/// delays, shares and `vol_norm` in milli.
#[derive(Clone, Copy, PartialEq, Eq, Structural, Debug)]
pub struct H3Metrics {
    /// The cell's 64-bit index.
    pub cell: u64,
    /// Weighted volume credited to the cell, micro.
    pub trips_total: u64,
    /// Trucks credited to the cell, milli.
    pub trips_trucks: u64,
    /// Cars credited to the cell, milli.
    pub trips_cars: u64,
    /// Confidence mass, micro.
    pub conf_sum: u64,
    /// Confidence weight, micro.
    pub conf_weight: u64,
    /// Delay of the volumetric model, milli.
    pub delay_orange: u64,
    /// Delay reported by the traffic provider, milli; 0 when unused.
    pub delay_tomtom: u64,
    /// Blended delay, milli.
    pub delay_final: u64,
    /// Truck share of the cell, milli within [0, 1].
    pub truck_share: u64,
    /// Volume relative to the day's mean, milli within [0, 20].
    pub vol_norm: u64,
}

/// The metrics of a freshly seen cell.
pub open spec fn fresh_metrics(cell: u64) -> H3Metrics {
    H3Metrics {
        cell,
        trips_total: 0,
        trips_trucks: 0,
        trips_cars: 0,
        conf_sum: 0,
        conf_weight: 0,
        delay_orange: 1000,
        delay_tomtom: 0,
        delay_final: 1000,
        truck_share: 0,
        vol_norm: 0,
    }
}

/// The volume-weighted cell confidence, milli; full confidence when no
/// weight has been accumulated.
pub open spec fn conf_cell_spec(m: H3Metrics) -> int {
    if m.conf_weight == 0 {
        1000
    } else {
        spec_clamp((m.conf_sum as int) * 1000 / (m.conf_weight as int), 0, 1000)
    }
}

impl H3Metrics {
    /// Metrics of a cell that no row has touched yet.
    pub fn new(cell: u64) -> (r: Self)
        ensures
            r == fresh_metrics(cell),
    {
        H3Metrics {
            cell,
            trips_total: 0,
            trips_trucks: 0,
            trips_cars: 0,
            conf_sum: 0,
            conf_weight: 0,
            delay_orange: 1000,
            delay_tomtom: 0,
            delay_final: 1000,
            truck_share: 0,
            vol_norm: 0,
        }
    }

    /// The volume-weighted confidence of the cell, milli.
    pub fn conf_cell(&self) -> (r: u64)
        ensures
            r == conf_cell_spec(*self),
    {
        if self.conf_weight == 0 {
            1000
        } else {
            let wide: u128 = (self.conf_sum as u128) * 1000 / (self.conf_weight as u128);
            proof {
                assert((self.conf_sum as u128) * 1000 == (self.conf_sum as int) * 1000);
            }
            if wide > 1000 {
                1000
            } else {
                wide as u64
            }
        }
    }
}

/// First index holding `cell`, or -1.
pub open spec fn find_cell(s: Seq<H3Metrics>, cell: u64) -> int
    decreases s.len(),
{
    if s.len() == 0 {
        -1
    } else if s[0].cell == cell {
        0
    } else {
        let r = find_cell(s.subrange(1, s.len() as int), cell);
        if r < 0 {
            -1
        } else {
            1 + r
        }
    }
}

/// `find_cell` returns the least index holding `cell`, or -1 when absent.
pub proof fn lemma_find_cell(s: Seq<H3Metrics>, cell: u64)
    ensures
        find_cell(s, cell) == -1 <==> (forall|i: int| 0 <= i < s.len() ==> s[i].cell != cell),
        find_cell(s, cell) >= 0 ==> find_cell(s, cell) < s.len() && s[find_cell(s, cell)].cell
            == cell && (forall|i: int| 0 <= i < find_cell(s, cell) ==> s[i].cell != cell),
    decreases s.len(),
{
    if s.len() > 0 && s[0].cell != cell {
        lemma_find_cell(s.subrange(1, s.len() as int), cell);
        let tail = s.subrange(1, s.len() as int);
        assert(forall|i: int| 1 <= i < s.len() ==> s[i] == tail[i - 1]);
    }
}

/// No two entries share a cell.
pub open spec fn distinct_cells(s: Seq<H3Metrics>) -> bool {
    forall|i: int, j: int|
        0 <= i < j < s.len() ==> (#[trigger] s[i]).cell != (#[trigger] s[j]).cell
}

/// The per-cell metrics of one day, keyed by cell index. Entries keep
/// first-seen order; no cell occurs twice.
#[derive(Debug)]
pub struct MetricsMap {
    items: Vec<H3Metrics>,
}

impl View for MetricsMap {
    type V = Seq<H3Metrics>;

    closed spec fn view(&self) -> Seq<H3Metrics> {
        self.items@
    }
}

impl MetricsMap {
    /// Well-formed: cells are pairwise distinct.
    pub open spec fn wf(self) -> bool {
        distinct_cells(self@)
    }

    /// The map as a mathematical map from cell to metrics.
    pub open spec fn as_map(self) -> Map<u64, H3Metrics> {
        Map::new(
            |c: u64| find_cell(self@, c) >= 0,
            |c: u64| self@[find_cell(self@, c)],
        )
    }

    /// An empty map.
    pub fn new() -> (r: Self)
        ensures
            r@ =~= Seq::<H3Metrics>::empty(),
            r.wf(),
    {
        MetricsMap { items: Vec::new() }
    }

    /// How many cells have metrics.
    pub fn len(&self) -> (r: usize)
        ensures
            r == self@.len(),
    {
        self.items.len()
    }

    /// The metrics at position `i` (first-seen order).
    pub fn index(&self, i: usize) -> (r: &H3Metrics)
        requires
            i < self@.len(),
        ensures
            *r == self@[i as int],
    {
        &self.items[i]
    }

    /// Replace the metrics at position `i`.
    pub fn set_at(&mut self, i: usize, m: H3Metrics)
        requires
            i < old(self)@.len(),
        ensures
            final(self)@ == old(self)@.update(i as int, m),
    {
        self.items[i] = m;
    }

    /// The position of `cell`, if present.
    pub fn find(&self, cell: u64) -> (r: Option<usize>)
        ensures
            match r {
                Some(i) => find_cell(self@, cell) == i,
                None => find_cell(self@, cell) == -1,
            },
    {
        proof {
            lemma_find_cell(self@, cell);
        }
        let n = self.items.len();
        let mut i: usize = 0;
        while i < n
            invariant
                i <= n,
                n == self@.len(),
                forall|j: int| 0 <= j < i ==> self@[j].cell != cell,
            decreases n - i,
        {
            if self.items[i].cell == cell {
                proof {
                    lemma_find_cell(self@, cell);
                }
                return Some(i);
            }
            i = i + 1;
        }
        None
    }

    /// The position of `cell`, adding a fresh entry when absent.
    pub fn entry_index(&mut self, cell: u64) -> (i: usize)
        requires
            old(self).wf(),
        ensures
            final(self).wf(),
            find_cell(old(self)@, cell) >= 0 ==> final(self)@ == old(self)@ && i == find_cell(
                old(self)@,
                cell,
            ),
            find_cell(old(self)@, cell) == -1 ==> final(self)@ == old(self)@.push(
                fresh_metrics(cell),
            ) && i == old(self)@.len(),
            final(self)@[i as int].cell == cell,
            i < final(self)@.len(),
    {
        proof {
            lemma_find_cell(self@, cell);
        }
        match self.find(cell) {
            Some(i) => i,
            None => {
                let i = self.items.len();
                self.items.push(H3Metrics::new(cell));
                proof {
                    assert(forall|j: int| 0 <= j < i ==> old(self)@[j].cell != cell);
                    assert(distinct_cells(self@)) by {
                        assert(forall|a: int, b: int|
                            0 <= a < b < self@.len() && b < i ==> (#[trigger] self@[a]).cell != (
                            #[trigger] self@[b]).cell);
                    }
                }
                i
            },
        }
    }
}

/// What one computed day hands back: the per-cell metrics, the rendered
/// GeoJSON, and the sink's failure if persisting did not go through.
#[derive(Debug)]
pub struct DayOutput {
    /// The day's metrics, owned by the caller from here on.
    pub metrics: MetricsMap,
    /// The rendered FeatureCollection.
    pub geojson: String,
    /// The sink's error, if it failed; the other two fields stay valid.
    pub sink_error: Option<String>,
}

/// Summary counters of the auxiliary data feeds.
#[derive(Clone, Copy, PartialEq, Eq, Structural, Debug)]
pub struct Kpis {
    /// Number of loading-zone records.
    pub carga: usize,
    /// Number of incident records.
    pub inc: usize,
}

/// Conditional-request state of a polled resource.
#[derive(Clone, Debug)]
pub struct CacheCtl {
    /// Last entity tag seen, if any.
    pub etag: Option<String>,
    /// Last modification stamp seen, if any.
    pub last_mod: Option<String>,
}

impl CacheCtl {
    /// A cache with no prior response.
    pub fn new() -> (r: Self)
        ensures
            r.etag is None,
            r.last_mod is None,
    {
        CacheCtl { etag: None, last_mod: None }
    }
}

/// A JSON-lines history file: one object per row, appended.
#[derive(Clone, Debug)]
pub struct JsonlSink {
    /// Path of the file the rows are appended to.
    pub path: String,
}

impl JsonlSink {
    /// A sink writing to the given path.
    pub fn new(path: String) -> (r: Self)
        ensures
            r.path@ == path@,
    {
        JsonlSink { path }
    }
}

/// The flattened per-cell snapshot persisted at the end of a day. Scales
/// are those of `H3Metrics`; the confidence is milli.
#[derive(Clone, Copy, PartialEq, Eq, Structural, Debug)]
pub struct H3DailyRow {
    pub date: Date,
    pub h3: u64,
    pub res: u8,
    pub trips_total: u64,
    pub trips_trucks: u64,
    pub trips_cars: u64,
    pub truck_share: u64,
    pub vol_norm: u64,
    pub conf_cell: u64,
    pub delay_orange: u64,
    pub delay_tomtom: u64,
    pub delay_final: u64,
}

} // verus!
