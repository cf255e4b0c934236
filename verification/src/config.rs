//! Pipeline configuration.
//!
//! Every real-valued knob is a scaled integer: factors, confidences, delays
//! and caps in milli units (1000 = 1.0), the capacity floor in micro volume
//! units. The BPR curvature exponent is a small integer.

use vstd::prelude::*;

verus! {

/// Configuration consumed by the daily delay pipeline.
#[derive(Clone, PartialEq, Eq, Structural, Debug)]
pub struct DelayCfg {
    /// Working H3 resolution (0..=15).
    pub res: u8,
    /// Weight of a truck in the volume sum, milli.
    pub truck_factor: u64,
    /// Weight of a car in the volume sum, milli.
    pub car_factor: u64,
    /// BPR congestion intensity `a`, milli.
    pub bpr_a: u64,
    /// BPR curvature exponent `b`.
    pub bpr_b: u8,
    /// Truck-mix sensitivity, milli.
    pub truck_gamma: u64,
    /// Percentile for capacity estimation, milli, within [0.5, 0.999].
    pub capacity_percentile: u64,
    /// Lower bound on the estimated capacity, micro volume units.
    pub capacity_floor: u64,
    /// Cap on v/c before exponentiation, milli.
    pub vc_cap: u64,
    /// Smallest delay, milli.
    pub delay_min: u64,
    /// Largest delay, milli.
    pub delay_max: u64,
    /// Cells whose confidence is below this consult the provider, milli.
    pub min_conf_for_pure_orange: u64,
    /// Most provider calls in flight at once.
    pub max_concurrent_calls: usize,
    /// Rendering threshold left to clients, milli.
    pub show_eps: u64,
}

impl DelayCfg {
    /// The ranges under which the pipeline's arithmetic is exact.
    pub open spec fn valid(self) -> bool {
        &&& self.res <= 15
        &&& self.truck_factor <= 10_000
        &&& self.car_factor <= 10_000
        &&& self.bpr_a <= 100_000
        &&& self.bpr_b <= 8
        &&& self.truck_gamma <= 10_000
        &&& 500 <= self.capacity_percentile <= 999
        &&& self.vc_cap <= 10_000
        &&& self.delay_min <= self.delay_max
        &&& 1000 < self.delay_max <= 100_000
        &&& self.min_conf_for_pure_orange <= 1000
        &&& self.max_concurrent_calls >= 1
    }

    /// Check the configuration; `true` exactly on valid configurations.
    pub fn check(&self) -> (r: bool)
        ensures
            r == self.valid(),
    {
        self.res <= 15 && self.truck_factor <= 10_000 && self.car_factor <= 10_000 && self.bpr_a
            <= 100_000 && self.bpr_b <= 8 && self.truck_gamma <= 10_000 && 500
            <= self.capacity_percentile && self.capacity_percentile <= 999 && self.vc_cap <= 10_000
            && self.delay_min <= self.delay_max && 1000 < self.delay_max && self.delay_max
            <= 100_000 && self.min_conf_for_pure_orange <= 1000 && self.max_concurrent_calls >= 1
    }
}

impl Default for DelayCfg {
    /// The stock configuration: resolution 7, truck weight 1.4, BPR
    /// `a = 0.15`, `b = 4`, gamma 0.4, capacity at the 90th percentile with
    /// floor 10, v/c capped at 2, delays within [1, 6], provider threshold
    /// 0.65, sixteen concurrent calls.
    fn default() -> (r: Self)
        ensures
            r.valid(),
            r.res == 7,
            r.truck_factor == 1400,
            r.car_factor == 1000,
            r.bpr_a == 150,
            r.bpr_b == 4,
            r.truck_gamma == 400,
            r.capacity_percentile == 900,
            r.capacity_floor == 10_000_000,
            r.vc_cap == 2000,
            r.delay_min == 1000,
            r.delay_max == 6000,
            r.min_conf_for_pure_orange == 650,
            r.max_concurrent_calls == 16,
            r.show_eps == 20,
    {
        DelayCfg {
            res: 7,
            truck_factor: 1400,
            car_factor: 1000,
            bpr_a: 150,
            bpr_b: 4,
            truck_gamma: 400,
            capacity_percentile: 900,
            capacity_floor: 10_000_000,
            vc_cap: 2000,
            delay_min: 1000,
            delay_max: 6000,
            min_conf_for_pure_orange: 650,
            max_concurrent_calls: 16,
            show_eps: 20,
        }
    }
}

} // verus!
