//! The daily origin/destination table as CSV text.
//!
//! A header names the columns, in any order; each record carries the day,
//! the two cell identifiers, the two counts as decimals, and an optional
//! confidence. Writing a record and parsing it back preserves every field
//! (see `lemma_csv_round_trip`).

use vstd::prelude::*;

use crate::dates::{parse_iso, parse_iso_spec, Date};
use crate::model::{ODRecord, ODRecordV};
use crate::numfmt::{find_char, fmt_scaled, fmt_scaled_spec, lemma_find_char, parse_scaled, parse_scaled_spec};

verus! {

/// Where each column sits in a header.
#[derive(Clone, Copy, PartialEq, Eq, Structural, Debug)]
pub struct ColMap {
    pub date: usize,
    pub origin: usize,
    pub dest: usize,
    pub trucks: usize,
    pub cars: usize,
    pub conf: Option<usize>,
}

/// The text split at commas; separators are consumed, empty fields stay.
pub open spec fn split_commas(s: Seq<char>) -> Seq<Seq<char>>
    decreases s.len(),
{
    let d = find_char(s, ',');
    if d < 0 || d >= s.len() {
        seq![s]
    } else {
        seq![s.subrange(0, d)] + split_commas(s.subrange(d + 1, s.len() as int))
    }
}

/// Split text at its commas.
pub fn split_commas_exec(s: &str) -> (r: Vec<String>)
    requires
        s@.len() < usize::MAX,
    ensures
        r.deep_view() == split_commas(s@),
{
    let n = s.unicode_len();
    let mut out: Vec<String> = Vec::new();
    let mut start: usize = 0;
    proof {
        assert(s@.subrange(0, n as int) =~= s@);
        assert(out.deep_view() =~= Seq::<Seq<char>>::empty());
        assert(out.deep_view() + split_commas(s@.subrange(0, n as int)) =~= split_commas(s@));
    }
    while start <= n
        invariant
            start <= n + 1,
            n < usize::MAX,
            n == s@.len(),
            start <= n ==> out.deep_view() + split_commas(s@.subrange(start as int, n as int))
                =~= split_commas(s@),
            start == n + 1 ==> out.deep_view() =~= split_commas(s@),
        decreases n + 1 - start,
    {
        // find the next comma at or after `start`
        let mut j: usize = start;
        while j < n && s.get_char(j) != ','
            invariant
                start <= j <= n,
                n == s@.len(),
                forall|t: int| start <= t < j ==> s@[t] != ',',
            decreases n - j,
        {
            j = j + 1;
        }
        let ghost rest = s@.subrange(start as int, n as int);
        proof {
            lemma_find_char(rest, ',');
            assert(forall|t: int| 0 <= t < rest.len() ==> rest[t] == s@[t + start]);
            if j < n {
                assert(rest[j - start] == ',');
                assert(forall|t: int| 0 <= t < j - start ==> rest[t] != ',');
                assert(find_char(rest, ',') == j - start) by {
                    let d = find_char(rest, ',');
                    if d < 0 {
                        assert(rest[j - start] != ',');
                    } else if d < j - start {
                        assert(rest[d] == ',');
                    } else if d > j - start {
                        assert(rest[j - start] != ',');
                    }
                }
            } else {
                assert(forall|t: int| 0 <= t < rest.len() ==> rest[t] != ',');
                assert(find_char(rest, ',') == -1);
            }
        }
        let piece = s.substring_char(start, j).to_owned();
        let ghost outv0 = out.deep_view();
        out.push(piece);
        proof {
            assert(out.deep_view() =~= outv0.push(s@.subrange(start as int, j as int)));
            if j < n {
                assert(rest.subrange(0, (j - start) as int) =~= s@.subrange(
                    start as int,
                    j as int,
                ));
                assert(rest.subrange((j - start) as int + 1, rest.len() as int) =~= s@.subrange(
                    j as int + 1,
                    n as int,
                ));
                assert(split_commas(rest) == seq![s@.subrange(start as int, j as int)]
                    + split_commas(s@.subrange(j as int + 1, n as int)));
                assert(out.deep_view() + split_commas(s@.subrange(j as int + 1, n as int))
                    =~= outv0 + split_commas(rest));
            } else {
                assert(rest =~= s@.subrange(start as int, j as int));
                assert(split_commas(rest) == seq![rest]);
                assert(out.deep_view() =~= outv0 + split_commas(rest));
            }
        }
        start = j + 1;
    }
    out
}

/// First field equal to `name`, or -1.
pub open spec fn find_field(cols: Seq<Seq<char>>, name: Seq<char>) -> int
    decreases cols.len(),
{
    if cols.len() == 0 {
        -1
    } else if cols[0] == name {
        0
    } else {
        let r = find_field(cols.subrange(1, cols.len() as int), name);
        if r < 0 {
            -1
        } else {
            1 + r
        }
    }
}

/// `find_field` returns the least matching index, or -1 when absent.
proof fn lemma_find_field(cols: Seq<Seq<char>>, name: Seq<char>)
    ensures
        find_field(cols, name) == -1 <==> (forall|i: int| 0 <= i < cols.len() ==> cols[i] != name),
        find_field(cols, name) >= 0 ==> find_field(cols, name) < cols.len() && cols[find_field(
            cols,
            name,
        )] == name && (forall|i: int| 0 <= i < find_field(cols, name) ==> cols[i] != name),
    decreases cols.len(),
{
    if cols.len() > 0 && cols[0] != name {
        lemma_find_field(cols.subrange(1, cols.len() as int), name);
        let tail = cols.subrange(1, cols.len() as int);
        assert(forall|i: int| 1 <= i < cols.len() ==> cols[i] == tail[i - 1]);
    }
}

/// The meaning of a header line: the position of each required column,
/// and of the optional confidence column.
pub open spec fn parse_header_spec(line: Seq<char>) -> Option<ColMap> {
    let cols = split_commas(line);
    let d = find_field(cols, "date"@);
    let o = find_field(cols, "origin_h3"@);
    let e = find_field(cols, "dest_h3"@);
    let t = find_field(cols, "n_trucks"@);
    let c = find_field(cols, "n_cars"@);
    let f = find_field(cols, "conf"@);
    if d >= 0 && o >= 0 && e >= 0 && t >= 0 && c >= 0 {
        Some(
            ColMap {
                date: d as usize,
                origin: o as usize,
                dest: e as usize,
                trucks: t as usize,
                cars: c as usize,
                conf: if f >= 0 {
                    Some(f as usize)
                } else {
                    None
                },
            },
        )
    } else {
        None
    }
}

/// Find `name` among the parsed fields.
fn find_field_exec(cols: &Vec<String>, name: &str) -> (r: Option<usize>)
    ensures
        match r {
            Some(i) => find_field(cols.deep_view(), name@) == i,
            None => find_field(cols.deep_view(), name@) == -1,
        },
{
    proof {
        lemma_find_field(cols.deep_view(), name@);
    }
    let n = cols.len();
    let mut i: usize = 0;
    while i < n
        invariant
            i <= n,
            n == cols@.len(),
            cols.deep_view().len() == n,
            forall|t: int| 0 <= t < n ==> #[trigger] cols.deep_view()[t] == cols@[t]@,
            forall|t: int| 0 <= t < i ==> cols.deep_view()[t] != name@,
        decreases n - i,
    {
        let field = &cols[i];
        let nm = name.to_owned();
        if field.eq(&nm) {
            proof {
                assert(cols.deep_view()[i as int] == cols@[i as int]@);
                assert(cols.deep_view()[i as int] == name@);
                lemma_find_field(cols.deep_view(), name@);
                let f = find_field(cols.deep_view(), name@);
                assert(f != -1);
                if f < i {
                    assert(cols.deep_view()[f] == name@);
                }
                if f > i {
                    assert(cols.deep_view()[i as int] != name@);
                }
            }
            return Some(i);
        }
        i = i + 1;
    }
    None
}

/// Parse a header line into the column positions.
pub fn parse_od_header(line: &str) -> (r: Option<ColMap>)
    requires
        line@.len() < usize::MAX,
    ensures
        r == parse_header_spec(line@),
{
    let cols = split_commas_exec(line);
    let d = find_field_exec(&cols, "date");
    let o = find_field_exec(&cols, "origin_h3");
    let e = find_field_exec(&cols, "dest_h3");
    let t = find_field_exec(&cols, "n_trucks");
    let c = find_field_exec(&cols, "n_cars");
    let f = find_field_exec(&cols, "conf");
    match (d, o, e, t, c) {
        (Some(d), Some(o), Some(e), Some(t), Some(c)) => Some(
            ColMap { date: d, origin: o, dest: e, trucks: t, cars: c, conf: f },
        ),
        _ => None,
    }
}

/// The largest count a record may carry, milli vehicles.
pub open spec fn max_count_milli() -> int {
    1_000_000_000_000
}

/// The meaning of a record line under a column map: `None` unless every
/// mapped column exists, the date is a calendar date, and both counts are
/// decimals within the supported range; an absent or empty confidence
/// field means no confidence.
pub open spec fn parse_record_spec(line: Seq<char>, cm: ColMap) -> Option<ODRecordV> {
    let fs = split_commas(line);
    let cols_ok = cm.date < fs.len() && cm.origin < fs.len() && cm.dest < fs.len() && cm.trucks
        < fs.len() && cm.cars < fs.len() && (match cm.conf {
        Some(ci) => ci < fs.len(),
        None => true,
    });
    if cols_ok {
        match (
            parse_iso_spec(fs[cm.date as int]),
            parse_scaled_spec(fs[cm.trucks as int], 3),
            parse_scaled_spec(fs[cm.cars as int], 3),
        ) {
            (Some(date), Some(nt), Some(nc)) => {
                if nt <= max_count_milli() && nc <= max_count_milli() {
                    let conf_field = match cm.conf {
                        Some(ci) => fs[ci as int],
                        None => Seq::empty(),
                    };
                    if conf_field.len() == 0 {
                        Some(
                            ODRecordV {
                                date,
                                origin_h3: fs[cm.origin as int],
                                dest_h3: fs[cm.dest as int],
                                n_trucks: nt as u64,
                                n_cars: nc as u64,
                                conf: None,
                            },
                        )
                    } else {
                        match parse_scaled_spec(conf_field, 3) {
                            Some(cv) => Some(
                                ODRecordV {
                                    date,
                                    origin_h3: fs[cm.origin as int],
                                    dest_h3: fs[cm.dest as int],
                                    n_trucks: nt as u64,
                                    n_cars: nc as u64,
                                    conf: Some(cv as u64),
                                },
                            ),
                            None => None,
                        }
                    }
                } else {
                    None
                }
            },
            _ => None,
        }
    } else {
        None
    }
}

/// Parse one record line under a column map.
pub fn parse_od_record(line: &str, cm: &ColMap) -> (r: Option<ODRecord>)
    requires
        line@.len() < usize::MAX,
    ensures
        match r {
            Some(rec) => parse_record_spec(line@, *cm) == Some(rec@),
            None => parse_record_spec(line@, *cm) is None,
        },
{
    let fs = split_commas_exec(line);
    let n = fs.len();
    proof {
        assert(fs.deep_view().len() == n);
    }
    let cols_ok = cm.date < n && cm.origin < n && cm.dest < n && cm.trucks < n && cm.cars < n && (
    match cm.conf {
        Some(ci) => ci < n,
        None => true,
    });
    if !cols_ok {
        return None;
    }
    let date = match parse_iso(fs[cm.date].as_str()) {
        Some(d) => d,
        None => {
            return None;
        },
    };
    let nt = match parse_scaled(fs[cm.trucks].as_str(), 3) {
        Some(v) => v,
        None => {
            return None;
        },
    };
    let nc = match parse_scaled(fs[cm.cars].as_str(), 3) {
        Some(v) => v,
        None => {
            return None;
        },
    };
    if nt > 1_000_000_000_000 || nc > 1_000_000_000_000 {
        return None;
    }
    let conf: Option<u64> = match cm.conf {
        Some(ci) => {
            if fs[ci].as_str().unicode_len() == 0 {
                None
            } else {
                match parse_scaled(fs[ci].as_str(), 3) {
                    Some(cv) => Some(cv),
                    None => {
                        return None;
                    },
                }
            }
        },
        None => None,
    };
    let rec = ODRecord {
        date,
        origin_h3: fs[cm.origin].clone(),
        dest_h3: fs[cm.dest].clone(),
        n_trucks: nt,
        n_cars: nc,
        conf,
    };
    proof {
        assert(rec@ == parse_record_spec(line@, *cm).unwrap());
    }
    Some(rec)
}

/// The canonical header this library writes.
pub open spec fn od_header_spec() -> Seq<char> {
    "date,origin_h3,dest_h3,n_trucks,n_cars,conf"@
}

/// The column map of the canonical header: the declaration order.
pub open spec fn default_colmap() -> ColMap {
    ColMap { date: 0, origin: 1, dest: 2, trucks: 3, cars: 4, conf: Some(5) }
}

/// Write the canonical header line.
pub fn od_csv_header() -> (s: String)
    ensures
        s@ == od_header_spec(),
{
    String::from_str("date,origin_h3,dest_h3,n_trucks,n_cars,conf")
}

/// The text of one record under the canonical column order; an absent
/// confidence is an empty last field.
pub open spec fn format_record_spec(r: ODRecordV) -> Seq<char> {
    r.date.iso_of() + ","@ + r.origin_h3 + ","@ + r.dest_h3 + ","@ + fmt_scaled_spec(
        r.n_trucks as int,
        3,
    ) + ","@ + fmt_scaled_spec(r.n_cars as int, 3) + ","@ + (match r.conf {
        Some(c) => fmt_scaled_spec(c as int, 3),
        None => Seq::<char>::empty(),
    })
}

/// Write one record under the canonical column order.
pub fn format_od_record(r: &ODRecord) -> (s: String)
    ensures
        s@ == format_record_spec(r@),
{
    let mut s = r.date.to_iso();
    s.append(",");
    s.append(r.origin_h3.as_str());
    s.append(",");
    s.append(r.dest_h3.as_str());
    s.append(",");
    let v = fmt_scaled(r.n_trucks, 3);
    s.append(v.as_str());
    s.append(",");
    let v = fmt_scaled(r.n_cars, 3);
    s.append(v.as_str());
    s.append(",");
    match &r.conf {
        Some(c) => {
            let v = fmt_scaled(*c, 3);
            s.append(v.as_str());
        },
        None => {},
    }
    proof {
        assert(s@ =~= format_record_spec(r@));
    }
    s
}

/// Digit strings hold no comma.
proof fn lemma_no_comma_digits(s: Seq<char>)
    requires
        crate::numfmt::all_digits(s),
    ensures
        forall|i: int| 0 <= i < s.len() ==> s[i] != ',',
{
    assert forall|i: int| 0 <= i < s.len() implies s[i] != ',' by {
        assert(crate::numfmt::is_digit(s[i]));
    }
}

/// Decimal number text holds no comma.
proof fn lemma_no_comma_fmt(v: int, k: nat)
    requires
        v >= 0,
    ensures
        forall|i: int| 0 <= i < fmt_scaled_spec(v, k).len() ==> #[trigger] fmt_scaled_spec(v, k)[i]
            != ',',
        fmt_scaled_spec(v, k).len() >= 1,
{
    crate::numfmt::lemma_dec_of_digits(v);
    let s = fmt_scaled_spec(v, k);
    if k == 0 {
        lemma_no_comma_digits(crate::numfmt::dec_of(v));
    } else {
        crate::fixed::lemma_pow10_pos(k);
        let p = crate::fixed::pow10(k);
        vstd::arithmetic::div_mod::lemma_fundamental_div_mod(v, p);
        assert(v / p >= 0) by {
            vstd::arithmetic::div_mod::lemma_div_is_ordered(0, v, p);
        }
        crate::numfmt::lemma_dec_of_digits(v / p);
        crate::numfmt::lemma_padded_digits(v % p, k);
        let dec = crate::numfmt::dec_of(v / p);
        let frac = crate::numfmt::padded_digits(v % p, k);
        lemma_no_comma_digits(dec);
        lemma_no_comma_digits(frac);
        assert forall|i: int| 0 <= i < s.len() implies s[i] != ',' by {
            if i < dec.len() {
                assert(s[i] == dec[i]);
            } else if i == dec.len() {
                assert(s[i] == '.');
            } else {
                assert(s[i] == frac[i - dec.len() - 1]);
            }
        }
    }
}

/// ISO date text holds no comma.
proof fn lemma_no_comma_iso(d: Date)
    requires
        d.valid(),
    ensures
        forall|i: int| 0 <= i < d.iso_of().len() ==> #[trigger] d.iso_of()[i] != ',',
{
    crate::fixed::lemma_pow10_exact(4);
    crate::fixed::lemma_pow10_exact(2);
    crate::numfmt::lemma_padded_digits(d.year as int, 4);
    crate::numfmt::lemma_padded_digits(d.month as int, 2);
    crate::numfmt::lemma_padded_digits(d.day as int, 2);
    let y = crate::numfmt::padded_digits(d.year as int, 4);
    let m = crate::numfmt::padded_digits(d.month as int, 2);
    let dd = crate::numfmt::padded_digits(d.day as int, 2);
    lemma_no_comma_digits(y);
    lemma_no_comma_digits(m);
    lemma_no_comma_digits(dd);
    let s = d.iso_of();
    assert forall|i: int| 0 <= i < s.len() implies s[i] != ',' by {
        if i < 4 {
            assert(s[i] == y[i]);
        } else if i == 4 {
            assert(s[i] == '-');
        } else if i < 7 {
            assert(s[i] == m[i - 5]);
        } else if i == 7 {
            assert(s[i] == '-');
        } else {
            assert(s[i] == dd[i - 8]);
        }
    }
}

/// Comma-free text is one field.
proof fn lemma_split_no_comma(a: Seq<char>)
    requires
        forall|i: int| 0 <= i < a.len() ==> a[i] != ',',
    ensures
        split_commas(a) == seq![a],
{
    lemma_find_char(a, ',');
    if find_char(a, ',') >= 0 {
        assert(a[find_char(a, ',')] == ',');
    }
}

/// Splitting starts with the first comma-free field.
proof fn lemma_split_prepend(a: Seq<char>, b: Seq<char>)
    requires
        forall|i: int| 0 <= i < a.len() ==> a[i] != ',',
    ensures
        split_commas(a + seq![','] + b) =~= seq![a] + split_commas(b),
{
    let s = a + seq![','] + b;
    lemma_find_char(s, ',');
    assert(s[a.len() as int] == ',');
    let d = find_char(s, ',');
    assert(d >= 0);
    assert(d == a.len()) by {
        if d < a.len() {
            assert(s[d] == a[d]);
        }
        if d > a.len() {
            assert(s[a.len() as int] != ',');
        }
    }
    assert(s.subrange(0, d) =~= a);
    assert(s.subrange(d + 1, s.len() as int) =~= b);
}

/// Writing a record under the canonical order and parsing the line back
/// gives the record again: the date, both cells, both counts and the
/// confidence are all preserved.
pub proof fn lemma_csv_round_trip(r: ODRecordV)
    requires
        r.date.valid(),
        r.n_trucks <= 1_000_000_000_000,
        r.n_cars <= 1_000_000_000_000,
        forall|i: int| 0 <= i < r.origin_h3.len() ==> r.origin_h3[i] != ',',
        forall|i: int| 0 <= i < r.dest_h3.len() ==> r.dest_h3[i] != ',',
        r.conf is Some ==> r.conf.unwrap() <= 1_000_000_000_000,
    ensures
        parse_record_spec(format_record_spec(r), default_colmap()) == Some(r),
{
    reveal_strlit(",");
    assert(","@ =~= seq![',']);
    let iso = r.date.iso_of();
    let t3 = fmt_scaled_spec(r.n_trucks as int, 3);
    let c3 = fmt_scaled_spec(r.n_cars as int, 3);
    let confpart = match r.conf {
        Some(c) => fmt_scaled_spec(c as int, 3),
        None => Seq::<char>::empty(),
    };
    let line = format_record_spec(r);
    lemma_no_comma_iso(r.date);
    lemma_no_comma_fmt(r.n_trucks as int, 3);
    lemma_no_comma_fmt(r.n_cars as int, 3);
    let rest5 = confpart;
    let rest4 = c3 + seq![','] + rest5;
    let rest3 = t3 + seq![','] + rest4;
    let rest2 = r.dest_h3 + seq![','] + rest3;
    let rest1 = r.origin_h3 + seq![','] + rest2;
    assert(line =~= iso + seq![','] + rest1);
    lemma_split_prepend(iso, rest1);
    lemma_split_prepend(r.origin_h3, rest2);
    lemma_split_prepend(r.dest_h3, rest3);
    lemma_split_prepend(t3, rest4);
    lemma_split_prepend(c3, rest5);
    match r.conf {
        Some(c) => {
            lemma_no_comma_fmt(c as int, 3);
            lemma_split_no_comma(confpart);
        },
        None => {
            lemma_split_no_comma(confpart);
        },
    }
    let fs = split_commas(line);
    assert(fs =~= seq![iso, r.origin_h3, r.dest_h3, t3, c3, confpart]);
    crate::dates::lemma_date_round_trip(r.date);
    crate::fixed::lemma_pow10_exact(3);
    vstd::arithmetic::div_mod::lemma_div_is_ordered(r.n_trucks as int, 1_000_000_000_000int, 1000);
    vstd::arithmetic::div_mod::lemma_div_is_ordered(r.n_cars as int, 1_000_000_000_000int, 1000);
    crate::numfmt::lemma_scaled_round_trip(r.n_trucks as int, 3);
    crate::numfmt::lemma_scaled_round_trip(r.n_cars as int, 3);
    let cm = default_colmap();
    assert(fs[cm.date as int] == iso);
    assert(fs[cm.origin as int] == r.origin_h3);
    assert(fs[cm.dest as int] == r.dest_h3);
    assert(fs[cm.trucks as int] == t3);
    assert(fs[cm.cars as int] == c3);
    assert(fs[5] == confpart);
    match r.conf {
        Some(c) => {
            vstd::arithmetic::div_mod::lemma_div_is_ordered(c as int, 1_000_000_000_000int, 1000);
            crate::numfmt::lemma_scaled_round_trip(c as int, 3);
            lemma_no_comma_fmt(c as int, 3);
            assert(confpart.len() >= 1);
            assert(parse_record_spec(line, cm) == Some(r)) by {
                let parsed = parse_record_spec(line, cm).unwrap();
                assert(parsed.date == r.date);
                assert(parsed.origin_h3 == r.origin_h3);
                assert(parsed.dest_h3 == r.dest_h3);
                assert(parsed.n_trucks == r.n_trucks);
                assert(parsed.n_cars == r.n_cars);
                assert(parsed.conf == r.conf);
            }
        },
        None => {
            assert(confpart.len() == 0);
            assert(parse_record_spec(line, cm) == Some(r)) by {
                let parsed = parse_record_spec(line, cm).unwrap();
                assert(parsed.date == r.date);
                assert(parsed.conf == r.conf);
            }
        },
    }
}

} // verus!
