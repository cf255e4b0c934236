//! Rendering the day's metrics as a styled polygon GeoJSON.
//!
//! One polygon feature per cell, carrying the cell id, the three delays
//! and the auxiliary signals rounded to two decimals, and a style block
//! whose color comes from an eleven-step ramp over the normalized final
//! delay. Given the same metrics and timestamp the text is identical; the
//! timestamp is the one thing the clock decides.

use vstd::prelude::*;

use crate::cells::{boundary_coord_text, cell_is_valid, cell_polygon_coords, closed_ring, hex_of};
use crate::config::DelayCfg;
use crate::fixed::spec_clamp;
use crate::model::{conf_cell_spec, H3Metrics, MetricsMap};
use crate::numfmt::fmt_scaled_spec;

verus! {

/// The eleven-step color ramp, indexed by tenths of the normalized delay.
pub open spec fn color_of_norm(norm: int) -> Seq<char> {
    let i = spec_clamp(norm, 0, 1000) / 100;
    if i == 0 {
        "#e9f7ef"@
    } else if i == 1 {
        "#d4f2e3"@
    } else if i == 2 {
        "#bfeacc"@
    } else if i == 3 {
        "#a9e3b6"@
    } else if i == 4 {
        "#fff3b0"@
    } else if i == 5 {
        "#ffe08a"@
    } else if i == 6 {
        "#ffc266"@
    } else if i == 7 {
        "#ff9f58"@
    } else if i == 8 {
        "#ff7a55"@
    } else if i == 9 {
        "#f5544f"@
    } else {
        "#d73a49"@
    }
}

/// Pick the ramp color for a normalized delay.
pub fn color_from_norm(norm: u64) -> (r: &'static str)
    ensures
        r@ == color_of_norm(norm as int),
{
    let i = if norm > 1000 {
        10
    } else {
        norm / 100
    };
    proof {
        reveal_strlit("#e9f7ef");
        reveal_strlit("#d4f2e3");
        reveal_strlit("#bfeacc");
        reveal_strlit("#a9e3b6");
        reveal_strlit("#fff3b0");
        reveal_strlit("#ffe08a");
        reveal_strlit("#ffc266");
        reveal_strlit("#ff9f58");
        reveal_strlit("#ff7a55");
        reveal_strlit("#f5544f");
        reveal_strlit("#d73a49");
    }
    match i {
        0 => "#e9f7ef",
        1 => "#d4f2e3",
        2 => "#bfeacc",
        3 => "#a9e3b6",
        4 => "#fff3b0",
        5 => "#ffe08a",
        6 => "#ffc266",
        7 => "#ff9f58",
        8 => "#ff7a55",
        9 => "#f5544f",
        _ => "#d73a49",
    }
}

/// The final delay normalized against the configured maximum, milli.
pub open spec fn norm_of(d: u64, cfg: DelayCfg) -> int {
    spec_clamp((d as int - 1000) * 1000 / (cfg.delay_max as int - 1000), 0, 1000)
}

/// A milli value rounded to hundredths and written with two decimals.
pub open spec fn fmt2_spec(x: u64) -> Seq<char> {
    fmt_scaled_spec((x as int + 5) / 10, 2)
}

/// Write a milli value with two decimals.
pub fn fmt2(x: u64) -> (s: String)
    requires
        x <= 400_000,
    ensures
        s@ == fmt2_spec(x),
{
    crate::numfmt::fmt_scaled((x + 5) / 10, 2)
}

/// A ring as GeoJSON positions: `[lng,lat]` pairs, comma-separated.
pub open spec fn coords_spec(ring: Seq<(Seq<char>, Seq<char>)>) -> Seq<char>
    decreases ring.len(),
{
    if ring.len() == 0 {
        Seq::empty()
    } else if ring.len() == 1 {
        "["@ + ring.last().0 + ","@ + ring.last().1 + "]"@
    } else {
        coords_spec(ring.drop_last()) + ",["@ + ring.last().0 + ","@ + ring.last().1 + "]"@
    }
}

/// The ring rendered for a cell: its closed boundary when the value names
/// a cell, nothing otherwise.
pub open spec fn ring_of(cell: u64) -> Seq<(Seq<char>, Seq<char>)> {
    if cell_is_valid(cell) {
        closed_ring(boundary_coord_text(cell))
    } else {
        Seq::empty()
    }
}

/// One polygon feature: geometry from the cell's boundary, properties
/// carrying the delays, signals and style.
pub open spec fn feature_spec(m: H3Metrics, cfg: DelayCfg) -> Seq<char> {
    let col = color_of_norm(norm_of(m.delay_final, cfg));
    "{\"type\":\"Feature\",\"geometry\":{\"type\":\"Polygon\",\"coordinates\":[["@ + coords_spec(
        ring_of(m.cell),
    ) + "]]},\"properties\":{\"h3\":\""@ + hex_of(m.cell as int) + "\",\"delay_final\":"@
        + fmt2_spec(m.delay_final) + ",\"delay_orange\":"@ + fmt2_spec(m.delay_orange)
        + ",\"delay_tomtom\":"@ + fmt2_spec(m.delay_tomtom) + ",\"vol_norm\":"@ + fmt2_spec(
        m.vol_norm,
    ) + ",\"truck_share\":"@ + fmt2_spec(m.truck_share) + ",\"used_tomtom\":"@ + (if m.delay_tomtom
        > 0 {
        "true"@
    } else {
        "false"@
    }) + ",\"conf\":"@ + fmt2_spec(conf_cell_spec(m) as u64) + ",\"style\":{\"fill\":true,\"fill-color\":\""@
        + col + "\",\"fill-opacity\":0.75,\"stroke\":\""@ + col
        + "\",\"stroke-width\":1,\"stroke-opacity\":1.0}}}"@
}

/// The features of the whole map, comma-separated, in entry order.
pub open spec fn features_spec(items: Seq<H3Metrics>, cfg: DelayCfg) -> Seq<char>
    decreases items.len(),
{
    if items.len() == 0 {
        Seq::empty()
    } else if items.len() == 1 {
        feature_spec(items.last(), cfg)
    } else {
        features_spec(items.drop_last(), cfg) + ","@ + feature_spec(items.last(), cfg)
    }
}

/// The whole GeoJSON document for a day's metrics and a timestamp.
pub open spec fn geojson_spec(items: Seq<H3Metrics>, cfg: DelayCfg, ts: Seq<char>) -> Seq<char> {
    "{\"type\":\"FeatureCollection\",\"name\":\"hex_delay_h3\",\"crs\":{\"type\":\"name\",\"properties\":{\"name\":\"EPSG:4326\"}},\"ts_utc\":\""@
        + ts + "\",\"features\":["@ + features_spec(items, cfg) + "]}"@
}

/// Write one feature.
fn feature_json(m: &H3Metrics, cfg: &DelayCfg) -> (s: String)
    requires
        cfg.valid(),
        m.delay_final <= 400_000,
        m.delay_orange <= 400_000,
        m.delay_tomtom <= 400_000,
        m.vol_norm <= 400_000,
        m.truck_share <= 400_000,
    ensures
        s@ == feature_spec(*m, *cfg),
{
    let dmax = cfg.delay_max - 1000;
    let num: u64 = if m.delay_final > 1000 {
        m.delay_final - 1000
    } else {
        0
    };
    let norm = crate::fixed::mul_div_capped(num, 1000, dmax, 1000);
    proof {
        assert(norm == norm_of(m.delay_final, *cfg)) by {
            if m.delay_final <= 1000 {
                assert((m.delay_final as int - 1000) * 1000 <= 0) by (nonlinear_arith)
                    requires
                        m.delay_final as int - 1000 <= 0,
                ;
                vstd::arithmetic::div_mod::lemma_div_is_ordered(
                    (m.delay_final as int - 1000) * 1000,
                    0int,
                    cfg.delay_max as int - 1000,
                );
            }
        }
    }
    let col = color_from_norm(norm);
    let mut s = String::new();
    s.append("{\"type\":\"Feature\",\"geometry\":{\"type\":\"Polygon\",\"coordinates\":[[");
    let ring = cell_polygon_coords(m.cell);
    let ghost ringv = ring_of(m.cell);
    proof {
        if cell_is_valid(m.cell) {
            assert(ring.deep_view() == ringv);
        } else {
            assert(ring@.len() == 0 && ringv.len() == 0);
            assert(ring.deep_view().len() == 0);
            assert(ring.deep_view() =~= ringv);
        }
    }
    let rn = ring.len();
    let mut i: usize = 0;
    proof {
        assert(ringv.subrange(0, 0) =~= Seq::<(Seq<char>, Seq<char>)>::empty());
    }
    while i < rn
        invariant
            i <= rn,
            rn == ring@.len(),
            ring.deep_view() == ringv,
            ringv.len() == rn,
            s@ == "{\"type\":\"Feature\",\"geometry\":{\"type\":\"Polygon\",\"coordinates\":[["@
                + coords_spec(ringv.subrange(0, i as int)),
        decreases rn - i,
    {
        if i > 0 {
            s.append(",[");
        } else {
            s.append("[");
        }
        s.append(ring[i].0.as_str());
        s.append(",");
        s.append(ring[i].1.as_str());
        s.append("]");
        proof {
            assert(ringv.subrange(0, i as int + 1).drop_last() =~= ringv.subrange(0, i as int));
            assert(ringv.subrange(0, i as int + 1).last() == ringv[i as int]);
            assert(ringv[i as int] == ring.deep_view()[i as int]);
            assert(ring.deep_view()[i as int].0 == ring@[i as int].0@);
            assert(ring.deep_view()[i as int].1 == ring@[i as int].1@);
            assert(s@ =~= "{\"type\":\"Feature\",\"geometry\":{\"type\":\"Polygon\",\"coordinates\":[["@
                + coords_spec(ringv.subrange(0, i as int + 1)));
        }
        i = i + 1;
    }
    proof {
        assert(ringv.subrange(0, rn as int) =~= ringv);
    }
    s.append("]]},\"properties\":{\"h3\":\"");
    let h = crate::cells::cell_to_hex(m.cell);
    s.append(h.as_str());
    s.append("\",\"delay_final\":");
    let v = fmt2(m.delay_final);
    s.append(v.as_str());
    s.append(",\"delay_orange\":");
    let v = fmt2(m.delay_orange);
    s.append(v.as_str());
    s.append(",\"delay_tomtom\":");
    let v = fmt2(m.delay_tomtom);
    s.append(v.as_str());
    s.append(",\"vol_norm\":");
    let v = fmt2(m.vol_norm);
    s.append(v.as_str());
    s.append(",\"truck_share\":");
    let v = fmt2(m.truck_share);
    s.append(v.as_str());
    s.append(",\"used_tomtom\":");
    if m.delay_tomtom > 0 {
        s.append("true");
    } else {
        s.append("false");
    }
    s.append(",\"conf\":");
    let v = fmt2(m.conf_cell());
    s.append(v.as_str());
    s.append(",\"style\":{\"fill\":true,\"fill-color\":\"");
    s.append(col);
    s.append("\",\"fill-opacity\":0.75,\"stroke\":\"");
    s.append(col);
    s.append("\",\"stroke-width\":1,\"stroke-opacity\":1.0}}}");
    proof {
        assert(s@ =~= feature_spec(*m, *cfg));
    }
    s
}

/// Render the day's metrics at a given timestamp. Deterministic: the text
/// is a function of the metrics, the configuration and the timestamp
/// alone; an empty map yields a FeatureCollection with zero features.
pub fn render_geojson_at(metrics: &MetricsMap, cfg: &DelayCfg, ts: &str) -> (s: String)
    requires
        cfg.valid(),
        forall|i: int|
            0 <= i < metrics@.len() ==> {
                let m = #[trigger] metrics@[i];
                m.delay_final <= 400_000 && m.delay_orange <= 400_000 && m.delay_tomtom <= 400_000
                    && m.vol_norm <= 400_000 && m.truck_share <= 400_000
            },
    ensures
        s@ == geojson_spec(metrics@, *cfg, ts@),
{
    let mut s = String::new();
    s.append(
        "{\"type\":\"FeatureCollection\",\"name\":\"hex_delay_h3\",\"crs\":{\"type\":\"name\",\"properties\":{\"name\":\"EPSG:4326\"}},\"ts_utc\":\"",
    );
    s.append(ts);
    s.append("\",\"features\":[");
    let ghost head = s@;
    let n = metrics.len();
    let mut i: usize = 0;
    proof {
        assert(metrics@.subrange(0, 0) =~= Seq::<H3Metrics>::empty());
    }
    while i < n
        invariant
            i <= n,
            n == metrics@.len(),
            cfg.valid(),
            forall|t: int|
                0 <= t < n ==> {
                    let m = #[trigger] metrics@[t];
                    m.delay_final <= 400_000 && m.delay_orange <= 400_000 && m.delay_tomtom
                        <= 400_000 && m.vol_norm <= 400_000 && m.truck_share <= 400_000
                },
            s@ == head + features_spec(metrics@.subrange(0, i as int), *cfg),
        decreases n - i,
    {
        if i > 0 {
            s.append(",");
        }
        let f = feature_json(metrics.index(i), cfg);
        s.append(f.as_str());
        proof {
            assert(metrics@.subrange(0, i as int + 1).drop_last() =~= metrics@.subrange(
                0,
                i as int,
            ));
            assert(metrics@.subrange(0, i as int + 1).last() == metrics@[i as int]);
            assert(s@ =~= head + features_spec(metrics@.subrange(0, i as int + 1), *cfg));
        }
        i = i + 1;
    }
    s.append("]}");
    proof {
        assert(metrics@.subrange(0, n as int) =~= metrics@);
        assert(s@ =~= geojson_spec(metrics@, *cfg, ts@));
    }
    s
}

/// Relies on `chrono::Utc::now` and `chrono::DateTime::to_rfc3339_opts`
/// for the wall-clock timestamp of the snapshot; nothing is assumed of the
/// text it returns.
#[verifier::external_body]
fn now_ts_rfc3339() -> String {
    chrono::Utc::now().to_rfc3339_opts(chrono::SecondsFormat::Secs, true)
}

/// Render the day's metrics, stamped with the wall clock: the text is the
/// deterministic rendering at some timestamp.
pub fn to_geojson(metrics: &MetricsMap, cfg: &DelayCfg) -> (s: String)
    requires
        cfg.valid(),
        forall|i: int|
            0 <= i < metrics@.len() ==> {
                let m = #[trigger] metrics@[i];
                m.delay_final <= 400_000 && m.delay_orange <= 400_000 && m.delay_tomtom <= 400_000
                    && m.vol_norm <= 400_000 && m.truck_share <= 400_000
            },
    ensures
        exists|ts: Seq<char>| s@ == geojson_spec(metrics@, *cfg, ts),
{
    let ts = now_ts_rfc3339();
    let s = render_geojson_at(metrics, cfg, ts.as_str());
    proof {
        assert(s@ == geojson_spec(metrics@, *cfg, ts@));
    }
    s
}

} // verus!
