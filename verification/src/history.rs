//! Daily history rows and their two persisted forms.
//!
//! A day's metrics flatten into one row per cell. The JSON-lines form is
//! one object per row, newline-terminated; the entity-upsert form is one
//! batch body holding every row as an entity with a stable id. Both texts
//! are specified to the character.

use vstd::prelude::*;

use crate::cells::hex_of;
use crate::config::DelayCfg;
use crate::dates::Date;
use crate::model::{conf_cell_spec, H3DailyRow, H3Metrics, MetricsMap};
use crate::numfmt::{dec_of, fmt_scaled, fmt_scaled_spec, u64_to_dec};

verus! {

/// A sink the day's rows are handed to. Failure is surfaced to the caller
/// of the day computation but never invalidates the metrics.
pub trait HistorySink {
    /// Persist an unordered batch of rows.
    fn persist(&self, rows: &Vec<H3DailyRow>) -> Result<(), String>;
}

/// The sink that keeps nothing; a day without persistence.
pub struct NoSink;

impl HistorySink for NoSink {
    fn persist(&self, _rows: &Vec<H3DailyRow>) -> (r: Result<(), String>)
        ensures
            r is Ok,
    {
        Ok(())
    }
}

/// The flattened snapshot of one cell.
pub open spec fn daily_row_spec(m: H3Metrics, date: Date, res: u8) -> H3DailyRow {
    H3DailyRow {
        date,
        h3: m.cell,
        res,
        trips_total: m.trips_total,
        trips_trucks: m.trips_trucks,
        trips_cars: m.trips_cars,
        truck_share: m.truck_share,
        vol_norm: m.vol_norm,
        conf_cell: conf_cell_spec(m) as u64,
        delay_orange: m.delay_orange,
        delay_tomtom: m.delay_tomtom,
        delay_final: m.delay_final,
    }
}

/// Flatten the day's metrics into history rows, in entry order.
pub fn daily_rows(metrics: &MetricsMap, date: &Date, cfg: &DelayCfg) -> (r: Vec<H3DailyRow>)
    ensures
        r@.len() == metrics@.len(),
        forall|i: int|
            0 <= i < r@.len() ==> #[trigger] r@[i] == daily_row_spec(metrics@[i], *date, cfg.res),
{
    let n = metrics.len();
    let mut out: Vec<H3DailyRow> = Vec::new();
    let mut i: usize = 0;
    while i < n
        invariant
            i <= n,
            n == metrics@.len(),
            out@.len() == i,
            forall|t: int|
                0 <= t < i ==> #[trigger] out@[t] == daily_row_spec(metrics@[t], *date, cfg.res),
        decreases n - i,
    {
        let m = metrics.index(i);
        out.push(
            H3DailyRow {
                date: *date,
                h3: m.cell,
                res: cfg.res,
                trips_total: m.trips_total,
                trips_trucks: m.trips_trucks,
                trips_cars: m.trips_cars,
                truck_share: m.truck_share,
                vol_norm: m.vol_norm,
                conf_cell: m.conf_cell(),
                delay_orange: m.delay_orange,
                delay_tomtom: m.delay_tomtom,
                delay_final: m.delay_final,
            },
        );
        i = i + 1;
    }
    out
}

/// The JSON object of one history row: fixed keys in declaration order,
/// the date and cell as strings, counts and micro sums with their full
/// fraction digits.
pub open spec fn jsonl_line_spec(r: H3DailyRow) -> Seq<char> {
    "{\"date\":\""@ + r.date.iso_of() + "\",\"h3\":\""@ + hex_of(r.h3 as int) + "\",\"res\":"@
        + dec_of(r.res as int) + ",\"trips_total\":"@ + fmt_scaled_spec(r.trips_total as int, 6)
        + ",\"trips_trucks\":"@ + fmt_scaled_spec(r.trips_trucks as int, 3) + ",\"trips_cars\":"@
        + fmt_scaled_spec(r.trips_cars as int, 3) + ",\"truck_share\":"@ + fmt_scaled_spec(
        r.truck_share as int,
        3,
    ) + ",\"vol_norm\":"@ + fmt_scaled_spec(r.vol_norm as int, 3) + ",\"conf_cell\":"@
        + fmt_scaled_spec(r.conf_cell as int, 3) + ",\"delay_orange\":"@ + fmt_scaled_spec(
        r.delay_orange as int,
        3,
    ) + ",\"delay_tomtom\":"@ + fmt_scaled_spec(r.delay_tomtom as int, 3) + ",\"delay_final\":"@
        + fmt_scaled_spec(r.delay_final as int, 3) + "}"@
}

/// Write one history row as its JSON object.
pub fn jsonl_line(r: &H3DailyRow) -> (s: String)
    ensures
        s@ == jsonl_line_spec(*r),
{
    let mut s = String::new();
    s.append("{\"date\":\"");
    let d = r.date.to_iso();
    s.append(d.as_str());
    s.append("\",\"h3\":\"");
    let h = crate::cells::cell_to_hex(r.h3);
    s.append(h.as_str());
    s.append("\",\"res\":");
    let res = u64_to_dec(r.res as u64);
    s.append(res.as_str());
    s.append(",\"trips_total\":");
    let v = fmt_scaled(r.trips_total, 6);
    s.append(v.as_str());
    s.append(",\"trips_trucks\":");
    let v = fmt_scaled(r.trips_trucks, 3);
    s.append(v.as_str());
    s.append(",\"trips_cars\":");
    let v = fmt_scaled(r.trips_cars, 3);
    s.append(v.as_str());
    s.append(",\"truck_share\":");
    let v = fmt_scaled(r.truck_share, 3);
    s.append(v.as_str());
    s.append(",\"vol_norm\":");
    let v = fmt_scaled(r.vol_norm, 3);
    s.append(v.as_str());
    s.append(",\"conf_cell\":");
    let v = fmt_scaled(r.conf_cell, 3);
    s.append(v.as_str());
    s.append(",\"delay_orange\":");
    let v = fmt_scaled(r.delay_orange, 3);
    s.append(v.as_str());
    s.append(",\"delay_tomtom\":");
    let v = fmt_scaled(r.delay_tomtom, 3);
    s.append(v.as_str());
    s.append(",\"delay_final\":");
    let v = fmt_scaled(r.delay_final, 3);
    s.append(v.as_str());
    s.append("}");
    proof {
        assert(s@ =~= jsonl_line_spec(*r));
    }
    s
}

/// The JSON-lines text of a batch: each row's object, newline-terminated.
pub open spec fn jsonl_lines_spec(rows: Seq<H3DailyRow>) -> Seq<char>
    decreases rows.len(),
{
    if rows.len() == 0 {
        Seq::empty()
    } else {
        jsonl_lines_spec(rows.drop_last()) + jsonl_line_spec(rows.last()) + "\n"@
    }
}

/// Write a batch of history rows as JSON lines.
pub fn jsonl_lines(rows: &Vec<H3DailyRow>) -> (s: String)
    ensures
        s@ == jsonl_lines_spec(rows@),
{
    let mut s = String::new();
    let n = rows.len();
    let mut i: usize = 0;
    proof {
        assert(rows@.subrange(0, 0) =~= Seq::<H3DailyRow>::empty());
    }
    while i < n
        invariant
            i <= n,
            n == rows@.len(),
            s@ == jsonl_lines_spec(rows@.subrange(0, i as int)),
        decreases n - i,
    {
        let line = jsonl_line(&rows[i]);
        s.append(line.as_str());
        s.append("\n");
        proof {
            let rv = rows@;
            assert(rv.subrange(0, i as int + 1).drop_last() =~= rv.subrange(0, i as int));
            assert(rv.subrange(0, i as int + 1).last() == rv[i as int]);
            assert(s@ =~= jsonl_lines_spec(rv.subrange(0, i as int + 1)));
        }
        i = i + 1;
    }
    proof {
        assert(rows@.subrange(0, n as int) =~= rows@);
    }
    s
}

/// The stable entity id of a row: prefix, date and cell.
pub open spec fn entity_id_spec(date: Date, cell: u64) -> Seq<char> {
    "urn:ngsi-ld:H3Delay:"@ + date.iso_of() + ":"@ + hex_of(cell as int)
}

/// Write the stable entity id for a day and cell.
pub fn entity_id(date: &Date, cell: u64) -> (s: String)
    ensures
        s@ == entity_id_spec(*date, cell),
{
    let mut s = String::new();
    s.append("urn:ngsi-ld:H3Delay:");
    let d = date.to_iso();
    s.append(d.as_str());
    s.append(":");
    let h = crate::cells::cell_to_hex(cell);
    s.append(h.as_str());
    proof {
        assert(s@ =~= entity_id_spec(*date, cell));
    }
    s
}

/// One quoted-string property of an entity.
pub open spec fn str_property_spec(key: Seq<char>, value: Seq<char>) -> Seq<char> {
    "\""@ + key + "\":{\"type\":\"Property\",\"value\":\""@ + value + "\"}"@
}

/// One numeric property of an entity.
pub open spec fn num_property_spec(key: Seq<char>, value: Seq<char>) -> Seq<char> {
    "\""@ + key + "\":{\"type\":\"Property\",\"value\":"@ + value + "}"@
}

/// The entity of one history row.
pub open spec fn entity_spec(r: H3DailyRow) -> Seq<char> {
    "{\"id\":\""@ + entity_id_spec(r.date, r.h3) + "\",\"type\":\"H3Delay\","@ + str_property_spec(
        "date"@,
        r.date.iso_of(),
    ) + ","@ + str_property_spec("h3"@, hex_of(r.h3 as int)) + ","@ + num_property_spec(
        "res"@,
        dec_of(r.res as int),
    ) + ","@ + num_property_spec("tripsTotal"@, fmt_scaled_spec(r.trips_total as int, 6)) + ","@
        + num_property_spec("tripsTrucks"@, fmt_scaled_spec(r.trips_trucks as int, 3)) + ","@
        + num_property_spec("tripsCars"@, fmt_scaled_spec(r.trips_cars as int, 3)) + ","@
        + num_property_spec("truckShare"@, fmt_scaled_spec(r.truck_share as int, 3)) + ","@
        + num_property_spec("volNorm"@, fmt_scaled_spec(r.vol_norm as int, 3)) + ","@
        + num_property_spec("conf"@, fmt_scaled_spec(r.conf_cell as int, 3)) + ","@
        + num_property_spec("delayOrange"@, fmt_scaled_spec(r.delay_orange as int, 3)) + ","@
        + num_property_spec("delayTomTom"@, fmt_scaled_spec(r.delay_tomtom as int, 3)) + ","@
        + num_property_spec("delayFinal"@, fmt_scaled_spec(r.delay_final as int, 3)) + "}"@
}

/// Append a quoted-string property to `s`.
fn push_str_property(s: &mut String, key: &str, value: &str)
    ensures
        final(s)@ == old(s)@ + str_property_spec(key@, value@),
{
    s.append("\"");
    s.append(key);
    s.append("\":{\"type\":\"Property\",\"value\":\"");
    s.append(value);
    s.append("\"}");
    proof {
        assert(s@ =~= old(s)@ + str_property_spec(key@, value@));
    }
}

/// Append a numeric property to `s`.
fn push_num_property(s: &mut String, key: &str, value: &str)
    ensures
        final(s)@ == old(s)@ + num_property_spec(key@, value@),
{
    s.append("\"");
    s.append(key);
    s.append("\":{\"type\":\"Property\",\"value\":");
    s.append(value);
    s.append("}");
    proof {
        assert(s@ =~= old(s)@ + num_property_spec(key@, value@));
    }
}

/// Write the entity of one history row.
pub fn entity_json(r: &H3DailyRow) -> (s: String)
    ensures
        s@ == entity_spec(*r),
{
    let mut s = String::new();
    s.append("{\"id\":\"");
    let id = entity_id(&r.date, r.h3);
    s.append(id.as_str());
    s.append("\",\"type\":\"H3Delay\",");
    let d = r.date.to_iso();
    push_str_property(&mut s, "date", d.as_str());
    s.append(",");
    let h = crate::cells::cell_to_hex(r.h3);
    push_str_property(&mut s, "h3", h.as_str());
    s.append(",");
    let v = u64_to_dec(r.res as u64);
    push_num_property(&mut s, "res", v.as_str());
    s.append(",");
    let v = fmt_scaled(r.trips_total, 6);
    push_num_property(&mut s, "tripsTotal", v.as_str());
    s.append(",");
    let v = fmt_scaled(r.trips_trucks, 3);
    push_num_property(&mut s, "tripsTrucks", v.as_str());
    s.append(",");
    let v = fmt_scaled(r.trips_cars, 3);
    push_num_property(&mut s, "tripsCars", v.as_str());
    s.append(",");
    let v = fmt_scaled(r.truck_share, 3);
    push_num_property(&mut s, "truckShare", v.as_str());
    s.append(",");
    let v = fmt_scaled(r.vol_norm, 3);
    push_num_property(&mut s, "volNorm", v.as_str());
    s.append(",");
    let v = fmt_scaled(r.conf_cell, 3);
    push_num_property(&mut s, "conf", v.as_str());
    s.append(",");
    let v = fmt_scaled(r.delay_orange, 3);
    push_num_property(&mut s, "delayOrange", v.as_str());
    s.append(",");
    let v = fmt_scaled(r.delay_tomtom, 3);
    push_num_property(&mut s, "delayTomTom", v.as_str());
    s.append(",");
    let v = fmt_scaled(r.delay_final, 3);
    push_num_property(&mut s, "delayFinal", v.as_str());
    s.append("}");
    proof {
        assert(s@ =~= entity_spec(*r));
    }
    s
}

/// The entities of a batch, comma-separated.
pub open spec fn entities_list_spec(rows: Seq<H3DailyRow>) -> Seq<char>
    decreases rows.len(),
{
    if rows.len() == 0 {
        Seq::empty()
    } else if rows.len() == 1 {
        entity_spec(rows.last())
    } else {
        entities_list_spec(rows.drop_last()) + ","@ + entity_spec(rows.last())
    }
}

/// The whole upsert body: a strict append holding every row as an entity.
pub open spec fn entities_payload_spec(rows: Seq<H3DailyRow>) -> Seq<char> {
    "{\"actionType\":\"append_strict\",\"entities\":["@ + entities_list_spec(rows) + "]}"@
}

/// Write the entity-upsert body for a batch of history rows.
pub fn entities_payload(rows: &Vec<H3DailyRow>) -> (s: String)
    ensures
        s@ == entities_payload_spec(rows@),
{
    let mut s = String::new();
    s.append("{\"actionType\":\"append_strict\",\"entities\":[");
    let n = rows.len();
    let mut i: usize = 0;
    proof {
        assert(rows@.subrange(0, 0) =~= Seq::<H3DailyRow>::empty());
    }
    while i < n
        invariant
            i <= n,
            n == rows@.len(),
            s@ == "{\"actionType\":\"append_strict\",\"entities\":["@ + entities_list_spec(
                rows@.subrange(0, i as int),
            ),
        decreases n - i,
    {
        if i > 0 {
            s.append(",");
        }
        let e = entity_json(&rows[i]);
        s.append(e.as_str());
        proof {
            let rv = rows@;
            assert(rv.subrange(0, i as int + 1).drop_last() =~= rv.subrange(0, i as int));
            assert(rv.subrange(0, i as int + 1).last() == rv[i as int]);
            assert(s@ =~= "{\"actionType\":\"append_strict\",\"entities\":["@
                + entities_list_spec(rv.subrange(0, i as int + 1)));
        }
        i = i + 1;
    }
    s.append("]}");
    proof {
        assert(rows@.subrange(0, n as int) =~= rows@);
        assert(s@ =~= entities_payload_spec(rows@));
    }
    s
}

/// A base URL without its trailing slashes.
pub open spec fn trim_slashes_spec(s: Seq<char>) -> Seq<char>
    decreases s.len(),
{
    if s.len() > 0 && s.last() == '/' {
        trim_slashes_spec(s.drop_last())
    } else {
        s
    }
}

/// The entity-upsert endpoint under a base URL.
pub open spec fn upsert_url_spec(base: Seq<char>) -> Seq<char> {
    trim_slashes_spec(base) + "/ngsi-ld/v1/entityOperations/upsert"@
}

/// An entity-upsert history endpoint: where to post, and how.
#[derive(Clone, Debug)]
pub struct OrionLdSink {
    /// Base URL of the endpoint.
    pub base_url: String,
    /// Optional tenant header value.
    pub tenant: Option<String>,
    /// Optional bearer token.
    pub token: Option<String>,
}

impl OrionLdSink {
    /// A sink posting to the given base URL.
    pub fn new(base_url: String, tenant: Option<String>, token: Option<String>) -> (r: Self)
        ensures
            r.base_url@ == base_url@,
            r.tenant == tenant,
            r.token == token,
    {
        OrionLdSink { base_url, tenant, token }
    }

    /// The full URL the batches are posted to.
    pub fn upsert_url(&self) -> (s: String)
        ensures
            s@ == upsert_url_spec(self.base_url@),
    {
        let n = self.base_url.as_str().unicode_len();
        let mut end: usize = n;
        proof {
            assert(self.base_url@.subrange(0, n as int) =~= self.base_url@);
        }
        while end > 0 && self.base_url.as_str().get_char(end - 1) == '/'
            invariant
                end <= n,
                n == self.base_url@.len(),
                forall|t: int| end <= t < n ==> self.base_url@[t] == '/',
                trim_slashes_spec(self.base_url@) == trim_slashes_spec(
                    self.base_url@.subrange(0, end as int),
                ),
            decreases end,
        {
            proof {
                assert(self.base_url@.subrange(0, end as int).drop_last() =~= self.base_url@
                    .subrange(0, end as int - 1));
            }
            end = end - 1;
        }
        proof {
            assert(trim_slashes_spec(self.base_url@.subrange(0, end as int)) == self.base_url@
                .subrange(0, end as int));
        }
        let mut s = self.base_url.as_str().substring_char(0, end).to_owned();
        s.append("/ngsi-ld/v1/entityOperations/upsert");
        proof {
            assert(s@ =~= upsert_url_spec(self.base_url@));
        }
        s
    }

    /// The upsert body for a batch of rows.
    pub fn build_entities_payload(&self, rows: &Vec<H3DailyRow>) -> (s: String)
        ensures
            s@ == entities_payload_spec(rows@),
    {
        entities_payload(rows)
    }
}

} // verus!
