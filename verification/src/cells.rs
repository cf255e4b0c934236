//! H3 cell identifiers.
//!
//! A cell is carried as its 64-bit index. Text form is the lowercase
//! hexadecimal of the index; parsing accepts what a hexadecimal `u64` read
//! accepts (an optional leading plus, any number of hex digits, value within
//! 64 bits). Whether a 64-bit value really names a cell is decided by the
//! `h3o` library; that verdict, and the cell's boundary polygon, are the only
//! two facts taken on trust here. The resolution sits in bits 52..=55 of the
//! index and is read directly.

use vstd::prelude::*;

verus! {

/// Powers of sixteen, for bounds on hexadecimal reads.
pub open spec fn pow16(n: nat) -> int
    decreases n,
{
    if n == 0 {
        1
    } else {
        16 * pow16((n - 1) as nat)
    }
}

/// `pow16` is positive.
pub proof fn lemma_pow16_pos(n: nat)
    ensures
        pow16(n) >= 1,
    decreases n,
{
    if n > 0 {
        lemma_pow16_pos((n - 1) as nat);
    }
}

/// The two powers of sixteen that the parser's bounds rest on.
pub proof fn lemma_pow16_16()
    ensures
        pow16(15) == 0x1000_0000_0000_0000,
        pow16(16) == 0x1_0000_0000_0000_0000,
{
    assert(pow16(16) == 16 * pow16(15));
    assert(pow16(15) == 16 * pow16(14));
    assert(pow16(14) == 16 * pow16(13));
    assert(pow16(13) == 16 * pow16(12));
    assert(pow16(12) == 16 * pow16(11));
    assert(pow16(11) == 16 * pow16(10));
    assert(pow16(10) == 16 * pow16(9));
    assert(pow16(9) == 16 * pow16(8));
    assert(pow16(8) == 16 * pow16(7));
    assert(pow16(7) == 16 * pow16(6));
    assert(pow16(6) == 16 * pow16(5));
    assert(pow16(5) == 16 * pow16(4));
    assert(pow16(4) == 16 * pow16(3));
    assert(pow16(3) == 16 * pow16(2));
    assert(pow16(2) == 16 * pow16(1));
    assert(pow16(1) == 16 * pow16(0));
}

/// Is `c` a hexadecimal digit (either case)?
pub open spec fn is_hex_digit(c: char) -> bool {
    (48 <= c as int <= 57) || (97 <= c as int <= 102) || (65 <= c as int <= 70)
}

/// The numeric value of a hexadecimal digit character.
pub open spec fn hex_digit_val(c: char) -> int {
    if 48 <= c as int <= 57 {
        c as int - 48
    } else if 97 <= c as int <= 102 {
        c as int - 87
    } else {
        c as int - 55
    }
}

/// The lowercase digit character for `d` (meaningful for `0 <= d < 16`).
pub open spec fn hex_char(d: int) -> char {
    if d < 10 {
        crate::numfmt::digit_char(d)
    } else if d == 10 {
        'a'
    } else if d == 11 {
        'b'
    } else if d == 12 {
        'c'
    } else if d == 13 {
        'd'
    } else if d == 14 {
        'e'
    } else {
        'f'
    }
}

/// Every character of `s` is a hexadecimal digit.
pub open spec fn all_hex(s: Seq<char>) -> bool {
    forall|i: int| 0 <= i < s.len() ==> is_hex_digit(#[trigger] s[i])
}

/// The value of a hexadecimal digit string, most significant first.
pub open spec fn val_of_hex(s: Seq<char>) -> int
    decreases s.len(),
{
    if s.len() == 0 {
        0
    } else {
        val_of_hex(s.drop_last()) * 16 + hex_digit_val(s.last())
    }
}

/// The shortest lowercase hexadecimal notation of a non-negative integer.
pub open spec fn hex_of(n: int) -> Seq<char>
    recommends
        n >= 0,
    decreases n,
{
    if n < 16 {
        seq![hex_char(n)]
    } else {
        hex_of(n / 16) + seq![hex_char(n % 16)]
    }
}

/// What a hexadecimal `u64` read makes of `s`: an optional leading plus,
/// then at least one hex digit, with a value within 64 bits.
pub open spec fn parse_cell_text(s: Seq<char>) -> Option<u64> {
    let body = if s.len() > 0 && s[0] == '+' {
        s.subrange(1, s.len() as int)
    } else {
        s
    };
    if body.len() >= 1 && all_hex(body) && val_of_hex(body) <= 0xffff_ffff_ffff_ffff {
        Some(val_of_hex(body) as u64)
    } else {
        None
    }
}

/// Hex strings have the value their length bounds: `val < 16^len`.
pub proof fn lemma_val_of_hex_bound(s: Seq<char>)
    requires
        all_hex(s),
    ensures
        0 <= val_of_hex(s) < pow16(s.len()),
    decreases s.len(),
{
    if s.len() == 0 {
    } else {
        lemma_val_of_hex_bound(s.drop_last());
        let p = pow16((s.len() - 1) as nat);
        let v = val_of_hex(s.drop_last());
        assert(v * 16 + hex_digit_val(s.last()) < p * 16) by (nonlinear_arith)
            requires
                v < p,
                hex_digit_val(s.last()) <= 15,
        ;
        assert(v * 16 >= 0) by (nonlinear_arith)
            requires
                v >= 0,
        ;
        assert(pow16(s.len()) == 16 * p);
    }
}

/// Splitting a hex string splits its value.
pub proof fn lemma_val_of_hex_split(s: Seq<char>, i: int)
    requires
        0 <= i <= s.len(),
    ensures
        val_of_hex(s) == val_of_hex(s.subrange(0, i)) * pow16((s.len() - i) as nat) + val_of_hex(
            s.subrange(i, s.len() as int),
        ),
    decreases s.len() - i,
{
    if i == s.len() {
        assert(s.subrange(0, i) =~= s);
        assert(s.subrange(i, s.len() as int) =~= Seq::<char>::empty());
    } else {
        lemma_val_of_hex_split(s.drop_last(), i);
        let hd = s.subrange(0, i);
        let tl = s.subrange(i, s.len() as int);
        assert(s.drop_last().subrange(0, i) =~= hd);
        assert(s.drop_last().subrange(i, s.len() - 1) =~= tl.drop_last());
        assert(tl.last() == s.last());
        let vh = val_of_hex(hd);
        let k = (s.len() - 1 - i) as nat;
        assert(val_of_hex(s) == (vh * pow16(k) + val_of_hex(tl.drop_last())) * 16 + hex_digit_val(
            s.last(),
        ));
        assert((vh * pow16(k) + val_of_hex(tl.drop_last())) * 16 == vh * (16 * pow16(k))
            + val_of_hex(tl.drop_last()) * 16) by (nonlinear_arith);
        assert(pow16((s.len() - i) as nat) == 16 * pow16(k));
    }
}

/// A run of zero characters reads as zero.
pub proof fn lemma_val_of_zeros(s: Seq<char>)
    requires
        forall|i: int| 0 <= i < s.len() ==> s[i] == '0',
    ensures
        val_of_hex(s) == 0,
    decreases s.len(),
{
    if s.len() > 0 {
        lemma_val_of_zeros(s.drop_last());
        assert(hex_digit_val('0') == 0);
    }
}

/// The single lowercase hex digit string for `d`.
pub fn hex_digit_str(d: u64) -> (r: &'static str)
    requires
        d < 16,
    ensures
        r@ =~= seq![hex_char(d as int)],
{
    if d < 10 {
        crate::numfmt::digit_str(d)
    } else {
        proof {
            reveal_strlit("a");
            reveal_strlit("b");
            reveal_strlit("c");
            reveal_strlit("d");
            reveal_strlit("e");
            reveal_strlit("f");
        }
        match d {
            10 => "a",
            11 => "b",
            12 => "c",
            13 => "d",
            14 => "e",
            _ => "f",
        }
    }
}

/// The lowercase hexadecimal text of a cell index.
pub fn cell_to_hex(n: u64) -> (r: String)
    ensures
        r@ == hex_of(n as int),
    decreases n,
{
    if n < 16 {
        hex_digit_str(n).to_owned()
    } else {
        let mut s = cell_to_hex(n / 16);
        s.append(hex_digit_str(n % 16));
        s
    }
}

/// `hex_of(n)` is all hex digits and reads back as `n`.
pub proof fn lemma_hex_of_val(n: int)
    requires
        n >= 0,
    ensures
        all_hex(hex_of(n)),
        hex_of(n).len() >= 1,
        val_of_hex(hex_of(n)) == n,
    decreases n,
{
    if n < 16 {
        let s = hex_of(n);
        assert(s =~= seq![hex_char(n)]);
        assert(s.drop_last() =~= Seq::<char>::empty());
        assert(val_of_hex(s.drop_last()) == 0);
        assert(s.last() == hex_char(n));
        assert(val_of_hex(s) == val_of_hex(s.drop_last()) * 16 + hex_digit_val(s.last()));
        assert(hex_digit_val(hex_char(n)) == n);
        assert(is_hex_digit(hex_char(n)));
        assert(forall|i: int| 0 <= i < s.len() ==> s[i] == hex_char(n));
    } else {
        lemma_hex_of_val(n / 16);
        let s = hex_of(n);
        assert(s == hex_of(n / 16) + seq![hex_char(n % 16)]);
        assert(s.drop_last() =~= hex_of(n / 16));
        assert(s.last() == hex_char(n % 16));
        assert(hex_digit_val(hex_char(n % 16)) == n % 16);
        assert(is_hex_digit(hex_char(n % 16)));
        vstd::arithmetic::div_mod::lemma_fundamental_div_mod(n, 16);
        assert(forall|i: int| 0 <= i < s.len() - 1 ==> s[i] == hex_of(n / 16)[i]);
    }
}

/// Writing a cell index as hex and reading it back is the identity.
pub proof fn lemma_cell_hex_round_trip(n: u64)
    ensures
        parse_cell_text(hex_of(n as int)) == Some(n),
{
    let s = hex_of(n as int);
    lemma_hex_of_val(n as int);
    assert(is_hex_digit(s[0]));
    assert(s[0] != '+');
}

/// Read a cell index from hexadecimal text.
pub fn parse_cell_u64(s: &str) -> (r: Option<u64>)
    ensures
        r == parse_cell_text(s@),
{
    let n = s.unicode_len();
    let start: usize = if n > 0 && s.get_char(0) == '+' {
        1
    } else {
        0
    };
    let ghost body = if s@.len() > 0 && s@[0] == '+' {
        s@.subrange(1, s@.len() as int)
    } else {
        s@
    };
    proof {
        if start == 1 {
            assert(forall|t: int| 0 <= t < body.len() ==> body[t] == s@[t + 1]);
        }
    }
    if start >= n {
        return None;
    }
    // every character of the body must be a hex digit
    let mut i: usize = start;
    while i < n
        invariant
            start <= i <= n,
            n == s@.len(),
            start == 0 || start == 1,
            start == 1 ==> s@.len() > 0 && s@[0] == '+',
            start == 0 ==> !(s@.len() > 0 && s@[0] == '+'),
            body == (if s@.len() > 0 && s@[0] == '+' {
                s@.subrange(1, s@.len() as int)
            } else {
                s@
            }),
            forall|t: int| start <= t < i ==> is_hex_digit(#[trigger] s@[t]),
        decreases n - i,
    {
        let c = s.get_char(i);
        let ok = (c >= '0' && c <= '9') || (c >= 'a' && c <= 'f') || (c >= 'A' && c <= 'F');
        if !ok {
            proof {
                assert(body[i - start] == s@[i as int]);
                assert(!is_hex_digit(body[i - start]));
            }
            return None;
        }
        i = i + 1;
    }
    proof {
        assert(forall|t: int| 0 <= t < body.len() ==> body[t] == s@[t + start]);
        assert(all_hex(body));
    }
    // skip leading zeros, then at most sixteen digits may remain
    let mut z: usize = start;
    while z < n && s.get_char(z) == '0'
        invariant
            start <= z <= n,
            n == s@.len(),
            forall|t: int| start <= t < z ==> s@[t] == '0',
        decreases n - z,
    {
        z = z + 1;
    }
    proof {
        let zeros = body.subrange(0, (z - start) as int);
        assert forall|t: int| 0 <= t < zeros.len() implies zeros[t] == '0' by {
            assert(zeros[t] == body[t]);
            assert(body[t] == s@[t + start]);
        }
        lemma_val_of_zeros(zeros);
        lemma_val_of_hex_split(body, (z - start) as int);
        let rest = body.subrange((z - start) as int, body.len() as int);
        let m = (body.len() - (z - start)) as nat;
        assert(val_of_hex(body) == val_of_hex(zeros) * pow16(m) + val_of_hex(rest));
        assert(val_of_hex(zeros) * pow16(m) == 0) by (nonlinear_arith)
            requires
                val_of_hex(zeros) == 0,
        ;
        assert(val_of_hex(body) == val_of_hex(body.subrange((z - start) as int, body.len() as int)));
        assert(forall|t: int|
            0 <= t < body.len() - (z - start) ==> #[trigger] body.subrange(
                (z - start) as int,
                body.len() as int,
            )[t] == s@[t + z]);
    }
    let ghost tail = body.subrange((z - start) as int, body.len() as int);
    if n - z > 16 {
        // the leading digit is non-zero, so the value exceeds 64 bits
        proof {
            lemma_val_of_hex_split(tail, 1);
            let head = tail.subrange(0, 1);
            assert(head.len() == 1);
            assert(head.last() == tail[0]);
            assert(head.drop_last() =~= Seq::<char>::empty());
            assert(val_of_hex(head.drop_last()) == 0);
            assert(val_of_hex(head) == val_of_hex(head.drop_last()) * 16 + hex_digit_val(
                head.last(),
            ));
            assert(val_of_hex(tail.subrange(0, 1)) == hex_digit_val(tail[0]));
            assert(tail[0] == s@[z as int]);
            assert(tail[0] != '0');
            assert(is_hex_digit(tail[0]));
            assert(hex_digit_val(tail[0]) >= 1);
            lemma_val_of_hex_bound(tail.subrange(1, tail.len() as int));
            lemma_pow16_pos((tail.len() - 1) as nat);
            let p = pow16((tail.len() - 1) as nat);
            assert(val_of_hex(tail) >= p) by (nonlinear_arith)
                requires
                    val_of_hex(tail) == val_of_hex(tail.subrange(0, 1)) * p + val_of_hex(
                        tail.subrange(1, tail.len() as int),
                    ),
                    val_of_hex(tail.subrange(0, 1)) >= 1,
                    val_of_hex(tail.subrange(1, tail.len() as int)) >= 0,
                    p >= 1,
            ;
            lemma_pow16_16();
            lemma_pow16_mono(16, (tail.len() - 1) as nat);
        }
        return None;
    }
    let mut v: u64 = 0;
    let mut j: usize = z;
    proof {
        assert(tail =~= body.subrange((z - start) as int, body.len() as int));
        lemma_pow16_16();
    }
    while j < n
        invariant
            z <= j <= n,
            n == s@.len(),
            n - z <= 16,
            start <= z,
            tail.len() == n - z,
            forall|t: int| 0 <= t < tail.len() ==> tail[t] == s@[t + z] && is_hex_digit(tail[t]),
            v == val_of_hex(tail.subrange(0, (j - z) as int)),
            v < pow16((j - z) as nat),
            pow16(15) == 0x1000_0000_0000_0000,
            pow16(16) == 0x1_0000_0000_0000_0000,
        decreases n - j,
    {
        let c = s.get_char(j);
        proof {
            assert(tail[j - z] == s@[j as int]);
            assert(is_hex_digit(c));
        }
        let d: u64 = if c >= '0' && c <= '9' {
            (c as u32 as u64) - 48
        } else if c >= 'a' && c <= 'f' {
            (c as u32 as u64) - 87
        } else {
            (c as u32 as u64) - 55
        };
        proof {
            assert(tail[j - z] == s@[j as int]);
            assert(d == hex_digit_val(tail[j - z]));
            assert(0 <= d < 16);
            lemma_pow16_mono((j - z + 1) as nat, 16);
            assert(tail.subrange(0, (j - z) as int + 1).drop_last() =~= tail.subrange(
                0,
                (j - z) as int,
            ));
            assert(tail.subrange(0, (j - z) as int + 1).last() == tail[j - z]);
            assert(pow16((j - z + 1) as nat) == 16 * pow16((j - z) as nat));
            assert(v * 16 + d < pow16((j - z + 1) as nat)) by (nonlinear_arith)
                requires
                    v < pow16((j - z) as nat),
                    0 <= d < 16,
                    pow16((j - z + 1) as nat) == 16 * pow16((j - z) as nat),
            ;
            assert(v * 16 >= 0) by (nonlinear_arith)
                requires
                    v >= 0,
            ;
        }
        v = v * 16 + d;
        j = j + 1;
    }
    proof {
        assert(tail.subrange(0, (j - z) as int) =~= tail);
        lemma_val_of_hex_bound(tail);
        lemma_pow16_mono(tail.len(), 16);
    }
    Some(v)
}

/// `pow16` grows with the exponent.
pub proof fn lemma_pow16_mono(a: nat, b: nat)
    requires
        a <= b,
    ensures
        pow16(a) <= pow16(b),
    decreases b,
{
    if a < b {
        lemma_pow16_mono(a, (b - 1) as nat);
        lemma_pow16_pos((b - 1) as nat);
    }
}

/// The resolution held in bits 52..=55 of a cell index.
pub open spec fn res_of_cell(cell: u64) -> u64 {
    (cell >> 52) & 0xF
}

/// Read the resolution bits of a cell index.
pub fn cell_resolution(cell: u64) -> (r: u8)
    ensures
        r as u64 == res_of_cell(cell),
        r <= 15,
{
    proof {
        assert((cell >> 52) & 0xF <= 15) by (bit_vector);
    }
    ((cell >> 52) & 0xF) as u8
}

/// Whether a 64-bit value names a cell, as the `h3o` library decides it.
pub uninterp spec fn cell_is_valid(cell: u64) -> bool;

/// Relies on `h3o::CellIndex::try_from(u64)`: it returns `Ok` exactly when
/// the value is a well-formed H3 cell index.
#[verifier::external_body]
fn check_cell_index(cell: u64) -> (r: bool)
    ensures
        r == cell_is_valid(cell),
{
    h3o::CellIndex::try_from(cell).is_ok()
}

/// The boundary polygon of a valid cell: for each vertex, the decimal text
/// of its longitude and latitude in degrees. A pure function of the cell.
pub uninterp spec fn boundary_coord_text(cell: u64) -> Seq<(Seq<char>, Seq<char>)>;

/// Relies on `h3o::CellIndex::boundary` and `h3o::LatLng::{lng, lat}`: the
/// boundary vertices depend on the cell alone and are returned in degrees.
#[verifier::external_body]
fn cell_boundary_text(cell: u64) -> (r: Vec<(String, String)>)
    requires
        cell_is_valid(cell),
    ensures
        r.deep_view() == boundary_coord_text(cell),
{
    let idx = h3o::CellIndex::try_from(cell).expect("validated cell index");
    idx.boundary().iter().map(|ll| (format!("{}", ll.lng()), format!("{}", ll.lat()))).collect()
}

/// The meaning of cell text: a hexadecimal 64-bit read that `h3o` accepts.
pub open spec fn cell_from_text(s: Seq<char>) -> Option<u64> {
    match parse_cell_text(s) {
        Some(v) => if cell_is_valid(v) {
            Some(v)
        } else {
            None
        },
        None => None,
    }
}

/// Parse a cell identifier from its hexadecimal text.
pub fn parse_cell(s: &str) -> (r: Option<u64>)
    ensures
        r == cell_from_text(s@),
{
    match parse_cell_u64(s) {
        Some(v) => {
            if check_cell_index(v) {
                Some(v)
            } else {
                None
            }
        },
        None => None,
    }
}

/// A vertex list closed into a ring: the first vertex is repeated at the
/// end unless it already is the last.
pub open spec fn closed_ring(b: Seq<(Seq<char>, Seq<char>)>) -> Seq<(Seq<char>, Seq<char>)> {
    if b.len() > 0 && b.last() != b[0] {
        b.push(b[0])
    } else {
        b
    }
}

/// The closed boundary ring of a cell, each vertex as longitude and
/// latitude text; empty when the value names no cell.
pub fn cell_polygon_coords(cell: u64) -> (r: Vec<(String, String)>)
    ensures
        cell_is_valid(cell) ==> r.deep_view() == closed_ring(boundary_coord_text(cell)),
        !cell_is_valid(cell) ==> r@.len() == 0,
{
    if !check_cell_index(cell) {
        return Vec::new();
    }
    let mut coords = cell_boundary_text(cell);
    if coords.len() > 0 {
        let first_lng = coords[0].0.clone();
        let first_lat = coords[0].1.clone();
        let last = coords.len() - 1;
        let same = first_lng.eq(&coords[last].0) && first_lat.eq(&coords[last].1);
        if !same {
            coords.push((first_lng, first_lat));
            proof {
                assert(coords.deep_view() =~= closed_ring(boundary_coord_text(cell)));
            }
        } else {
            proof {
                assert(coords.deep_view() =~= closed_ring(boundary_coord_text(cell)));
            }
        }
    }
    coords
}

} // verus!
