//! IP addresses as plain 128-bit codes, their textual grammar, and CIDR
//! blocks.
//!
//! An IPv4 address `a.b.c.d` is carried in its IPv6-mapped form
//! `::ffff:a.b.c.d`, so one `u128` code covers both families and the two
//! never collide.  The text grammar accepts dotted quads without superfluous
//! leading zeros, and IPv6 addresses written as colon-separated groups of
//! one to four hexadecimal digits (either case), in the full eight-group
//! form or with one `::` standing for the elided zero groups; rendering
//! always produces the canonical full form, which parses back to the same
//! code.

use vstd::prelude::*;
use vstd::string::StrSliceExecFns;
use crate::text::all_digits;
use crate::text::all_hex;
use crate::text::hex_digits;
use crate::text::hex_run_end;
use crate::text::hex_val;
use crate::text::is_hex_digit;
use crate::text::lemma_hex_digits_len4;
use crate::text::lemma_hex_digits_shape;
use crate::text::lemma_hex_roundtrip;
use crate::text::lemma_hex_run_end;
use crate::text::lemma_hex_run_is;
use crate::text::parse_hex_run;
use crate::text::push_hex;
use crate::text::char_is_digit;
use crate::text::dec_digits;
use crate::text::dec_val;
use crate::text::digit_run_end;
use crate::text::is_digit;
use crate::text::lemma_dec_digits_shape;
use crate::text::lemma_dec_roundtrip;
use crate::text::lemma_digit_run_end;
use crate::text::lemma_run_is;
use crate::text::parse_dec_run;
use crate::text::push_char;
use crate::text::push_dec;

verus! {

/// Lowest IPv6-mapped IPv4 code, `::ffff:0.0.0.0`.
pub const V4_BASE: u128 = 0xffff_0000_0000;

/// One past the highest IPv6-mapped IPv4 code.
pub const V4_END: u128 = 0x1_0000_0000_0000;

/// True of codes that stand for an IPv4 address.
pub open spec fn is_v4_code(ip: u128) -> bool {
    V4_BASE <= ip && ip < V4_END
}

/// The code of the IPv4 address with numeric value `v`.
pub open spec fn spec_v4_code(v: nat) -> u128 {
    (0xffff_0000_0000 + v) as u128
}

/// The numeric value of an IPv4 code.
pub open spec fn spec_v4_val(ip: u128) -> nat {
    (ip - 0xffff_0000_0000) as nat
}

/// Exec embedding of an IPv4 value.
pub fn v4_code(v: u32) -> (ip: u128)
    ensures
        ip == spec_v4_code(v as nat),
        is_v4_code(ip),
{
    V4_BASE + (v as u128)
}

/// Exec test for an IPv4 code.
pub fn code_is_v4(ip: u128) -> (r: bool)
    ensures
        r == is_v4_code(ip),
{
    V4_BASE <= ip && ip < V4_END
}

/// Exec extraction of the IPv4 value.
pub fn v4_val(ip: u128) -> (v: u32)
    requires
        is_v4_code(ip),
    ensures
        v as nat == spec_v4_val(ip),
        spec_v4_code(v as nat) == ip,
{
    (ip - V4_BASE) as u32
}

/// The canonical dotted-quad rendering of an IPv4 value.
pub open spec fn ipv4_text(v: nat) -> Seq<char> {
    dec_digits(v / 0x1000000 % 256) + seq!['.'] + dec_digits(v / 0x10000 % 256) + seq!['.']
        + dec_digits(v / 0x100 % 256) + seq!['.'] + dec_digits(v % 256)
}

/// Renders an IPv4 value as its canonical dotted quad.
pub fn format_ipv4(v: u32) -> (r: String)
    ensures
        r@ == ipv4_text(v as nat),
{
    let a = v / 0x1000000;
    let b = v / 0x10000 % 256;
    let c = v / 0x100 % 256;
    let d = v % 256;
    proof {
        assert(v / 0x1000000 < 256);
        assert(a % 256 == a);
        assert(a as nat == (v as nat) / 0x1000000 % 256);
        assert(b as nat == (v as nat) / 0x10000 % 256);
        assert(c as nat == (v as nat) / 0x100 % 256);
        assert(d as nat == (v as nat) % 256);
    }
    let mut s = String::new();
    push_dec(&mut s, a as u64);
    push_char(&mut s, '.');
    push_dec(&mut s, b as u64);
    push_char(&mut s, '.');
    push_dec(&mut s, c as u64);
    push_char(&mut s, '.');
    push_dec(&mut s, d as u64);
    proof {
        assert(s@ =~= ipv4_text(v as nat));
    }
    s
}

/// One octet of a dotted quad: a run of one to three digits, no superfluous
/// leading zero, value at most 255.
pub open spec fn spec_parse_octet(s: Seq<char>, i: int, end: int) -> Option<(u32, int)> {
    let e = digit_run_end(s, i, end);
    if e == i {
        None
    } else if e - i > 3 {
        None
    } else if e - i > 1 && s[i] == '0' {
        None
    } else if dec_val(s.subrange(i, e)) > 255 {
        None
    } else {
        Some((dec_val(s.subrange(i, e)) as u32, e))
    }
}

/// A dotted quad starting at `i`: four octets separated by dots.
pub open spec fn spec_parse_ipv4_at(s: Seq<char>, i: int, end: int) -> Option<(u32, int)> {
    match spec_parse_octet(s, i, end) {
        None => None,
        Some((a, p1)) => if p1 < end && s[p1] == '.' {
            match spec_parse_octet(s, p1 + 1, end) {
                None => None,
                Some((b, p2)) => if p2 < end && s[p2] == '.' {
                    match spec_parse_octet(s, p2 + 1, end) {
                        None => None,
                        Some((c, p3)) => if p3 < end && s[p3] == '.' {
                            match spec_parse_octet(s, p3 + 1, end) {
                                None => None,
                                Some((d, p4)) => Some(
                                    (((a * 0x1000000 + b * 0x10000 + c * 0x100 + d) as u32), p4),
                                ),
                            }
                        } else {
                            None
                        },
                    }
                } else {
                    None
                },
            }
        } else {
            None
        },
    }
}

/// The value of `s[from..to)` read as a whole dotted quad.
pub open spec fn spec_parse_ipv4(s: Seq<char>, from: int, to: int) -> Option<u32> {
    match spec_parse_ipv4_at(s, from, to) {
        Some((v, p)) => if p == to {
            Some(v)
        } else {
            None
        },
        None => None,
    }
}

/// Reads one octet; the result agrees with the grammar exactly.
fn parse_octet(s: &str, i: usize, end: usize) -> (r: Option<(u32, usize)>)
    requires
        i <= end,
        end <= s@.len(),
    ensures
        match r {
            Some(p) => {
                &&& spec_parse_octet(s@, i as int, end as int) == Some((p.0, p.1 as int))
                &&& i < p.1 <= end
                &&& p.0 <= 255
            },
            None => spec_parse_octet(s@, i as int, end as int) is None,
        },
{
    proof {
        lemma_digit_run_end(s@, i as int, end as int);
    }
    match parse_dec_run(s, i, end) {
        None => {
            proof {
                let e = digit_run_end(s@, i as int, end as int);
                if e != i && dec_val(s@.subrange(i as int, e)) > u64::MAX {
                    // A run whose value exceeds u64::MAX has far more than
                    // three digits.
                    if e - i <= 3 {
                        crate::text::lemma_dec_val_len_bound(s@.subrange(i as int, e));
                        assert(crate::text::pow10(0) == 1);
                        assert(crate::text::pow10(1) == 10);
                        assert(crate::text::pow10(2) == 100);
                        assert(crate::text::pow10(3) == 1000);
                        assert(crate::text::pow10(s@.subrange(i as int, e).len()) <= 1000);
                    }
                }
            }
            None
        },
        Some((v, e)) => {
            if e - i > 3 {
                None
            } else if e - i > 1 && s.get_char(i) == '0' {
                None
            } else if v > 255 {
                None
            } else {
                Some((v as u32, e))
            }
        },
    }
}

/// Reads a whole dotted quad over `[from, to)`; the result agrees with the
/// grammar exactly.
pub fn parse_ipv4(s: &str, from: usize, to: usize) -> (r: Option<u32>)
    requires
        from <= to,
        to <= s@.len(),
    ensures
        r == spec_parse_ipv4(s@, from as int, to as int),
{
    let oa = parse_octet(s, from, to);
    let (a, p1) = match oa {
        None => { return None; },
        Some(p) => p,
    };
    if !(p1 < to && s.get_char(p1) == '.') {
        return None;
    }
    let ob = parse_octet(s, p1 + 1, to);
    let (b, p2) = match ob {
        None => { return None; },
        Some(p) => p,
    };
    if !(p2 < to && s.get_char(p2) == '.') {
        return None;
    }
    let oc = parse_octet(s, p2 + 1, to);
    let (c, p3) = match oc {
        None => { return None; },
        Some(p) => p,
    };
    if !(p3 < to && s.get_char(p3) == '.') {
        return None;
    }
    let od = parse_octet(s, p3 + 1, to);
    let (d, p4) = match od {
        None => { return None; },
        Some(p) => p,
    };
    if p4 != to {
        return None;
    }
    Some(a * 0x1000000 + b * 0x10000 + c * 0x100 + d)
}

/// Parsing recovers an octet rendered at `i` and stops right after it.
proof fn lemma_octet_complete(s: Seq<char>, i: int, end: int, o: nat)
    requires
        0 <= i,
        o <= 255,
        i + dec_digits(o).len() <= end <= s.len(),
        forall|k: int|
            0 <= k < dec_digits(o).len() ==> s[i + k] == #[trigger] dec_digits(o)[k],
        i + dec_digits(o).len() < end ==> !is_digit(s[i + dec_digits(o).len()]),
    ensures
        spec_parse_octet(s, i, end) == Some((o as u32, i + dec_digits(o).len())),
{
    let t = dec_digits(o);
    lemma_dec_digits_shape(o);
    assert forall|j: int| i <= j < i + t.len() implies is_digit(#[trigger] s[j]) by {
        assert(s[j] == t[j - i]);
    }
    lemma_run_is(s, i, end, t.len() as int);
    let e = digit_run_end(s, i, end);
    assert(e == i + t.len());
    assert(s.subrange(i, e) =~= t);
    lemma_dec_roundtrip(o);
    assert(dec_val(s.subrange(i, e)) == o);
    // Length and leading-zero side conditions hold of a canonical rendering.
    if o < 10 {
        assert(t.len() == 1);
    } else if o < 100 {
        lemma_dec_digits_shape(o / 10);
        assert(o / 10 < 10);
        assert(t == dec_digits(o / 10).push(crate::text::digit_char(o % 10)));
        assert(t.len() == 2);
        assert(t[0] != '0');
    } else {
        lemma_dec_digits_shape(o / 100);
        lemma_dec_digits_shape(o / 10);
        assert(o / 10 >= 10 && o / 10 < 100);
        assert(o / 10 / 10 == o / 100);
        assert(dec_digits(o / 10) == dec_digits(o / 100).push(crate::text::digit_char(o / 10 % 10)));
        assert(o / 100 < 10);
        assert(dec_digits(o / 100).len() == 1);
        assert(dec_digits(o / 10).len() == 2);
        assert(t == dec_digits(o / 10).push(crate::text::digit_char(o % 10)));
        assert(t.len() == 3);
        assert(t[0] != '0');
    }
}

/// Parsing recovers a whole dotted quad rendered over `[from, to)`.
pub proof fn lemma_parse_ipv4_complete(s: Seq<char>, from: int, to: int, v: nat)
    requires
        0 <= from <= to <= s.len(),
        v < 0x1_0000_0000,
        s.subrange(from, to) =~= ipv4_text(v),
    ensures
        spec_parse_ipv4(s, from, to) == Some(v as u32),
{
    let a = v / 0x1000000 % 256;
    let b = v / 0x10000 % 256;
    let c = v / 0x100 % 256;
    let d = v % 256;
    let ta = dec_digits(a);
    let tb = dec_digits(b);
    let tc = dec_digits(c);
    let td = dec_digits(d);
    let text = ipv4_text(v);
    assert(to - from == text.len());
    lemma_dec_digits_shape(a);
    lemma_dec_digits_shape(b);
    lemma_dec_digits_shape(c);
    lemma_dec_digits_shape(d);
    let la = ta.len() as int;
    let lb = tb.len() as int;
    let lc = tc.len() as int;
    let ld = td.len() as int;
    // Positions of the three dots inside the rendering.
    let q1 = from + la;
    let q2 = q1 + 1 + lb;
    let q3 = q2 + 1 + lc;
    assert forall|k: int| 0 <= k < text.len() implies s[from + k] == text[k] by {
        assert(s.subrange(from, to)[k] == s[from + k]);
    }
    assert forall|k: int| 0 <= k < la implies s[from + k] == ta[k] by {
        assert(text[k] == ta[k]);
    }
    assert(s[q1] == text[la] && text[la] == '.');
    assert forall|k: int| 0 <= k < lb implies s[q1 + 1 + k] == tb[k] by {
        assert(text[la + 1 + k] == tb[k]);
    }
    assert(s[q2] == text[la + 1 + lb] && text[la + 1 + lb] == '.');
    assert forall|k: int| 0 <= k < lc implies s[q2 + 1 + k] == tc[k] by {
        assert(text[la + 1 + lb + 1 + k] == tc[k]);
    }
    assert(s[q3] == text[la + 1 + lb + 1 + lc] && text[la + 1 + lb + 1 + lc] == '.');
    assert forall|k: int| 0 <= k < ld implies s[q3 + 1 + k] == td[k] by {
        assert(text[la + 1 + lb + 1 + lc + 1 + k] == td[k]);
    }
    assert(a <= 255 && b <= 255 && c <= 255 && d <= 255);
    lemma_octet_complete(s, from, to, a);
    lemma_octet_complete(s, q1 + 1, to, b);
    lemma_octet_complete(s, q2 + 1, to, c);
    lemma_octet_complete(s, q3 + 1, to, d);
    assert(q3 + 1 + ld == to);
    // The four octets recompose the value.
    assert(a * 0x1000000 + b * 0x10000 + c * 0x100 + d == v) by {
        lemma_v4_decompose(v);
    }
}

/// The weight of group `k` (counting from the left) in an IPv6 address.
pub open spec fn gdiv(k: int) -> nat {
    if k == 0 { 0x10000000000000000000000000000 }
    else if k == 1 { 0x1000000000000000000000000 }
    else if k == 2 { 0x100000000000000000000 }
    else if k == 3 { 0x10000000000000000 }
    else if k == 4 { 0x1000000000000 }
    else if k == 5 { 0x100000000 }
    else if k == 6 { 0x10000 }
    else { 1 }
}

/// Group `k` of an IPv6 address, counting from the left.
pub open spec fn v6_group(ip: u128, k: int) -> nat {
    (ip as nat) / gdiv(k) % 0x10000
}

/// `0x10000` to the power `c - 1`: the scale of the leading group among `c`
/// remaining groups.
pub open spec fn gf(c: nat) -> nat
    decreases c,
{
    if c <= 1 { 1 } else { gf((c - 1) as nat) * 0x10000 }
}

/// The canonical rendering of groups `j` through 7, colon-separated.
pub open spec fn v6_tail_text(ip: u128, j: int) -> Seq<char>
    decreases 8 - j,
{
    if j >= 7 || j < 0 {
        hex_digits(v6_group(ip, 7))
    } else {
        hex_digits(v6_group(ip, j)) + seq![':'] + v6_tail_text(ip, j + 1)
    }
}

/// The canonical full-form rendering of an IPv6 address: eight groups of
/// minimal lowercase hexadecimal digits.
pub open spec fn ipv6_text(ip: u128) -> Seq<char> {
    v6_tail_text(ip, 0)
}

/// The value contributed by groups `j` through 7.
pub open spec fn v6_tail_val(ip: u128, j: int) -> nat
    decreases 8 - j,
{
    if j >= 7 || j < 0 {
        v6_group(ip, 7)
    } else {
        v6_group(ip, j) * gf((8 - j) as nat) + v6_tail_val(ip, j + 1)
    }
}

/// Exec extraction of group `j`.
fn v6_group_exec(ip: u128, j: usize) -> (g: u64)
    requires
        j <= 7,
    ensures
        g as nat == v6_group(ip, j as int),
        g < 0x10000,
{
    match j {
        0 => (ip / 0x10000000000000000000000000000 % 0x10000) as u64,
        1 => (ip / 0x1000000000000000000000000 % 0x10000) as u64,
        2 => (ip / 0x100000000000000000000 % 0x10000) as u64,
        3 => (ip / 0x10000000000000000 % 0x10000) as u64,
        4 => (ip / 0x1000000000000 % 0x10000) as u64,
        5 => (ip / 0x100000000 % 0x10000) as u64,
        6 => (ip / 0x10000 % 0x10000) as u64,
        _ => (ip % 0x10000) as u64,
    }
}

/// Appends the rendering of groups `j` through 7 to `out`.
fn push_v6_tail(out: &mut String, ip: u128, j: usize)
    requires
        j <= 7,
    ensures
        final(out)@ == old(out)@ + v6_tail_text(ip, j as int),
    decreases 8 - j,
{
    let g = v6_group_exec(ip, j);
    push_hex(out, g);
    if j < 7 {
        push_char(out, ':');
        proof {
            assert(out@ =~= old(out)@ + hex_digits(v6_group(ip, j as int)) + seq![':']);
        }
        push_v6_tail(out, ip, j + 1);
        proof {
            assert(final(out)@ =~= old(out)@ + (hex_digits(v6_group(ip, j as int)) + seq![':']
                + v6_tail_text(ip, j + 1)));
        }
    }
}

/// Renders an IPv6 address in canonical full form.
pub fn format_ipv6(ip: u128) -> (r: String)
    ensures
        r@ == ipv6_text(ip),
{
    let mut s = String::new();
    push_v6_tail(&mut s, ip, 0);
    proof {
        assert(s@ =~= v6_tail_text(ip, 0));
    }
    s
}

/// One group: a run of one to four hexadecimal digits.
pub open spec fn spec_parse_v6_group(s: Seq<char>, i: int, end: int) -> Option<(u64, int)> {
    let e = hex_run_end(s, i, end);
    if e == i {
        None
    } else if e - i > 4 {
        None
    } else {
        Some((hex_val(s.subrange(i, e)) as u64, e))
    }
}

/// `count` colon-separated groups starting at `i`, read as one value with
/// the leading group most significant.
pub open spec fn spec_parse_v6_groups(s: Seq<char>, i: int, end: int, count: nat) -> Option<
    (nat, int),
>
    decreases count,
{
    if count == 0 {
        None
    } else {
        match spec_parse_v6_group(s, i, end) {
            None => None,
            Some((g, p)) => if count == 1 {
                Some((g as nat, p))
            } else {
                if p < end && s[p] == ':' {
                    match spec_parse_v6_groups(s, p + 1, end, (count - 1) as nat) {
                        None => None,
                        Some((rest, q)) => Some(((g as nat) * gf(count) + rest, q)),
                    }
                } else {
                    None
                }
            },
        }
    }
}

/// The value of `s[from..to)` read as a whole full-form IPv6 address.
pub open spec fn spec_parse_ipv6(s: Seq<char>, from: int, to: int) -> Option<u128> {
    match spec_parse_v6_groups(s, from, to, 8) {
        Some((v, p)) => if p == to {
            Some(v as u128)
        } else {
            None
        },
        None => None,
    }
}

/// Reads one group; the result agrees with the grammar exactly.
fn parse_v6_group(s: &str, i: usize, end: usize) -> (r: Option<(u64, usize)>)
    requires
        i <= end,
        end <= s@.len(),
    ensures
        match r {
            Some(p) => {
                &&& spec_parse_v6_group(s@, i as int, end as int) == Some((p.0, p.1 as int))
                &&& i < p.1 <= end
                &&& p.0 < 0x10000
            },
            None => spec_parse_v6_group(s@, i as int, end as int) is None,
        },
{
    proof {
        lemma_hex_run_end(s@, i as int, end as int);
    }
    match parse_hex_run(s, i, end, 4) {
        None => {
            proof {
                let e = hex_run_end(s@, i as int, end as int);
                // parse_hex_run refuses exactly the empty run and the run
                // longer than four digits, as the grammar does.
                assert(e == i || e - i > 4);
            }
            None
        },
        Some((v, e)) => {
            proof {
                let sub = s@.subrange(i as int, e as int);
                crate::text::lemma_hex_val_len_bound(sub);
                assert(crate::text::pow16(0) == 1);
                assert(crate::text::pow16(1) == 16);
                assert(crate::text::pow16(2) == 256);
                assert(crate::text::pow16(3) == 4096);
                assert(crate::text::pow16(4) == 65536);
                assert(crate::text::pow16(sub.len()) <= 65536);
            }
            Some((v, e))
        },
    }
}

/// Reads a whole full-form IPv6 address over `[from, to)`; the result agrees
/// with the grammar exactly.
pub fn parse_ipv6(s: &str, from: usize, to: usize) -> (r: Option<u128>)
    requires
        from <= to,
        to <= s@.len(),
    ensures
        r == spec_parse_ipv6(s@, from as int, to as int),
{
    let g0 = match parse_v6_group(s, from, to) {
        None => { return None; },
        Some(p) => p,
    };
    let mut acc: u128 = g0.0 as u128;
    let mut p: usize = g0.1;
    let mut j: usize = 1;
    proof {
        assert(gf(1) == 1);
        assert(gf(2) == gf(1) * 0x10000);
        assert(gf(2) == 0x10000);
    }
    while j < 8
        invariant
            1 <= j <= 8,
            from <= p <= to,
            to <= s@.len(),
            acc < gf((j + 1) as nat),
            ({
                let full = spec_parse_v6_groups(s@, from as int, to as int, 8);
                if j == 8 {
                    full == Some::<(nat, int)>(((acc as nat), p as int))
                } else {
                    full == (if p < to && s@[p as int] == ':' {
                        match spec_parse_v6_groups(s@, p + 1, to as int, (8 - j) as nat) {
                            None => None,
                            Some((rest, q)) => Some(
                                ((acc as nat) * gf((9 - j) as nat) + rest, q),
                            ),
                        }
                    } else {
                        None::<(nat, int)>
                    })
                }
            }),
        decreases 8 - j,
    {
        if !(p < to && s.get_char(p) == ':') {
            return None;
        }
        let g = match parse_v6_group(s, p + 1, to) {
            None => {
                return None;
            },
            Some(gp) => gp,
        };
        proof {
            let c = (8 - j) as nat;
            assert(spec_parse_v6_groups(s@, p + 1, to as int, c) == (if c == 1 {
                Some(((g.0 as nat), g.1 as int))
            } else {
                if g.1 < to && s@[g.1 as int] == ':' {
                    match spec_parse_v6_groups(s@, g.1 as int + 1, to as int, (c - 1) as nat) {
                        None => None,
                        Some((rest, q)) => Some(((g.0 as nat) * gf(c) + rest, q)),
                    }
                } else {
                    None::<(nat, int)>
                }
            }));
            lemma_gf_bound(j as nat);
            lemma_gf_9();
            assert((acc as nat) * 0x10000 + (g.0 as nat) < gf((j + 2) as nat)) by (nonlinear_arith)
                requires
                    acc < gf((j + 1) as nat),
                    (g.0 as nat) < 0x10000,
                    gf((j + 2) as nat) == gf((j + 1) as nat) * 0x10000,
            ;
            assert(gf((j + 2) as nat) <= gf(9));
            assert((acc as nat) * 0x10000 + (g.0 as nat) <= u128::MAX);
            if j < 7 {
                // Re-associate the scale of the leading groups.
                assert(gf((9 - j) as nat) == gf((8 - j) as nat) * 0x10000);
                assert(((acc as nat) * 0x10000 + (g.0 as nat)) * gf((8 - j) as nat) == (acc as nat)
                    * gf((9 - j) as nat) + (g.0 as nat) * gf((8 - j) as nat)) by (nonlinear_arith)
                    requires gf((9 - j) as nat) == gf((8 - j) as nat) * 0x10000;
            } else {
                assert(gf((9 - j) as nat) == 0x10000);
            }
        }
        acc = acc * 0x10000 + (g.0 as u128);
        p = g.1;
        j = j + 1;
    }
    if p == to {
        Some(acc)
    } else {
        None
    }
}

/// `gf(9)` is two to the 128th, so eight accumulated groups fit in `u128`.
proof fn lemma_gf_9()
    ensures
        gf(9) == 0x100000000000000000000000000000000,
{
    reveal_with_fuel(gf, 10);
}

proof fn lemma_gf_bound(j: nat)
    requires
        1 <= j <= 7,
    ensures
        gf((j + 2) as nat) <= gf(9),
        gf((j + 2) as nat) == gf((j + 1) as nat) * 0x10000,
    decreases 9 - j,
{
    if j < 7 {
        lemma_gf_bound((j + 1) as nat);
        assert(gf((j + 2) as nat) * 1 <= gf((j + 2) as nat) * 0x10000) by (nonlinear_arith);
    }
}

/// Every character of a full-form IPv6 rendering is a hexadecimal digit or
/// a colon.
proof fn lemma_v6_text_chars(ip: u128, j: int)
    requires
        0 <= j <= 7,
    ensures
        forall|k: int|
            0 <= k < v6_tail_text(ip, j).len() ==> is_hex_digit(#[trigger] v6_tail_text(ip, j)[k])
                || v6_tail_text(ip, j)[k] == ':',
    decreases 8 - j,
{
    let t = hex_digits(v6_group(ip, j));
    lemma_hex_digits_shape(v6_group(ip, j));
    if j == 7 {
    } else {
        lemma_v6_text_chars(ip, j + 1);
        let whole = v6_tail_text(ip, j);
        let rest = v6_tail_text(ip, j + 1);
        assert forall|k: int|
            0 <= k < whole.len() implies is_hex_digit(#[trigger] whole[k]) || whole[k]
            == ':' by {
            if k < t.len() {
                assert(whole[k] == t[k]);
            } else if k == t.len() {
                assert(whole[k] == ':');
            } else {
                assert(whole[k] == rest[k - t.len() - 1]);
            }
        }
    }
}

/// A full-form rendering starts with a hexadecimal digit and never holds
/// two adjacent colons.
proof fn lemma_v6_text_shape(ip: u128, j: int)
    requires
        0 <= j <= 7,
    ensures
        v6_tail_text(ip, j).len() >= 1,
        is_hex_digit(v6_tail_text(ip, j)[0]),
        forall|p: int|
            0 <= p < v6_tail_text(ip, j).len() - 1 ==> !((#[trigger] v6_tail_text(ip, j)[p])
                == ':' && v6_tail_text(ip, j)[p + 1] == ':'),
    decreases 8 - j,
{
    let g = v6_group(ip, j);
    let t = hex_digits(g);
    lemma_hex_digits_shape(g);
    assert(':' as int == 58);
    assert(!is_hex_digit(':'));
    if j == 7 {
        let whole = v6_tail_text(ip, j);
        assert(whole == t);
        assert forall|p: int|
            0 <= p < whole.len() - 1 implies !((#[trigger] whole[p]) == ':' && whole[p + 1]
            == ':') by {
            assert(is_hex_digit(t[p]));
        }
    } else {
        lemma_v6_text_shape(ip, j + 1);
        let whole = v6_tail_text(ip, j);
        let rest = v6_tail_text(ip, j + 1);
        assert(whole == t + seq![':'] + rest);
        assert(whole[0] == t[0]);
        assert forall|p: int|
            0 <= p < whole.len() - 1 implies !((#[trigger] whole[p]) == ':' && whole[p + 1]
            == ':') by {
            if p < t.len() {
                assert(whole[p] == t[p]);
                assert(is_hex_digit(t[p]));
            } else if p == t.len() {
                assert(whole[p] == ':');
                assert(whole[p + 1] == rest[0]);
                assert(is_hex_digit(rest[0]));
            } else {
                assert(whole[p] == rest[p - t.len() - 1]);
                assert(whole[p + 1] == rest[p - t.len()]);
                assert(!(rest[p - t.len() - 1] == ':' && rest[p - t.len()] == ':'));
            }
        }
    }
}

/// Parsing recovers groups `j` through 7 rendered over `[i, end)`.
proof fn lemma_v6_groups_complete(s: Seq<char>, i: int, end: int, ip: u128, j: int)
    requires
        0 <= j <= 7,
        0 <= i <= end <= s.len(),
        s.subrange(i, end) =~= v6_tail_text(ip, j),
    ensures
        spec_parse_v6_groups(s, i, end, (8 - j) as nat) == Some((v6_tail_val(ip, j), end)),
    decreases 8 - j,
{
    let g = v6_group(ip, j);
    let t = hex_digits(g);
    lemma_hex_digits_shape(g);
    lemma_hex_digits_len4(g);
    lemma_hex_roundtrip(g);
    let whole = v6_tail_text(ip, j);
    assert forall|k: int| 0 <= k < whole.len() implies s[i + k] == whole[k] by {
        assert(s.subrange(i, end)[k] == s[i + k]);
    }
    if j == 7 {
        assert(whole == t);
        assert forall|k: int| i <= k < i + t.len() implies is_hex_digit(#[trigger] s[k]) by {
            assert(s[k] == t[k - i]);
        }
        assert(i + t.len() == end);
        lemma_hex_run_is(s, i, end, t.len() as int);
        assert(s.subrange(i, i + t.len()) =~= t);
        assert(spec_parse_v6_group(s, i, end) == Some((g as u64, i + t.len() as int)));
    } else {
        let rest = v6_tail_text(ip, j + 1);
        assert(whole == t + seq![':'] + rest);
        assert forall|k: int| i <= k < i + t.len() implies is_hex_digit(#[trigger] s[k]) by {
            assert(s[k] == whole[k - i]);
            assert(whole[k - i] == t[k - i]);
        }
        let p = i + t.len() as int;
        assert(s[p] == whole[t.len() as int]);
        assert(whole[t.len() as int] == ':');
        assert(':' as int == 58);
        assert(!is_hex_digit(':'));
        assert(p < end);
        lemma_hex_run_is(s, i, end, t.len() as int);
        assert(s.subrange(i, p) =~= t);
        assert(spec_parse_v6_group(s, i, end) == Some((g as u64, p)));
        assert(s.subrange(p + 1, end) =~= rest) by {
            assert forall|k: int| 0 <= k < rest.len() implies s.subrange(p + 1, end)[k]
                == rest[k] by {
                assert(s.subrange(p + 1, end)[k] == s[p + 1 + k]);
                assert(s[p + 1 + k] == whole[t.len() + 1 + k]);
                assert(whole[t.len() + 1 + k] == rest[k]);
            }
        }
        lemma_v6_groups_complete(s, p + 1, end, ip, j + 1);
        assert((8 - j) as nat != 1);
        assert(spec_parse_v6_groups(s, i, end, (8 - j) as nat) == Some(
            ((g as nat) * gf((8 - j) as nat) + v6_tail_val(ip, j + 1), end),
        ));
    }
}

/// `gf(8 - j)` is the weight of group `j`.
proof fn lemma_gf_is_gdiv(j: int)
    requires
        0 <= j <= 7,
    ensures
        gf((8 - j) as nat) == gdiv(j),
{
    reveal_with_fuel(gf, 9);
}

/// The tail values recompose the address.
proof fn lemma_v6_tail_val_total(ip: u128, j: int)
    requires
        0 <= j <= 7,
    ensures
        v6_tail_val(ip, j) == (ip as nat) % (gdiv(j) * 0x10000),
    decreases 8 - j,
{
    if j == 7 {
        assert(gdiv(7) * 0x10000 == 0x10000);
    } else {
        lemma_v6_tail_val_total(ip, j + 1);
        lemma_gf_is_gdiv(j);
        assert(gdiv(j + 1) * 0x10000 == gdiv(j));
        vstd::arithmetic::div_mod::lemma_mod_breakdown(
            ip as int,
            gdiv(j) as int,
            0x10000,
        );
        assert((ip as nat) % (gdiv(j) * 0x10000) == gdiv(j) * (((ip as nat) / gdiv(j)) % 0x10000)
            + (ip as nat) % gdiv(j));
        assert(v6_group(ip, j) * gf((8 - j) as nat) == gdiv(j) * (((ip as nat) / gdiv(j))
            % 0x10000)) by (nonlinear_arith)
            requires
                gf((8 - j) as nat) == gdiv(j),
                v6_group(ip, j) == ((ip as nat) / gdiv(j)) % 0x10000,
        ;
    }
}


/// Where the first `::` stands in `s[from..to)`, or `to` if none does.
pub open spec fn find_dc_spec(s: Seq<char>, i: int, to: int) -> int
    decreases to - i,
{
    if i < 0 || to > s.len() || i + 1 >= to {
        to
    } else if s[i] == ':' && s[i + 1] == ':' {
        i
    } else {
        find_dc_spec(s, i + 1, to)
    }
}

pub proof fn lemma_find_dc(s: Seq<char>, i: int, to: int)
    requires
        0 <= i <= to <= s.len(),
    ensures
        i <= find_dc_spec(s, i, to) <= to,
        find_dc_spec(s, i, to) != to ==> find_dc_spec(s, i, to) + 1 < to && s[find_dc_spec(
            s,
            i,
            to,
        )] == ':' && s[find_dc_spec(s, i, to) + 1] == ':',
        forall|j: int|
            i <= j < find_dc_spec(s, i, to) && j + 1 < to ==> !(#[trigger] s[j] == ':' && s[j + 1]
                == ':'),
    decreases to - i,
{
    if i + 1 < to && !(s[i] == ':' && s[i + 1] == ':') {
        lemma_find_dc(s, i + 1, to);
    }
}

/// Exec scan for the first `::` in `s[from..to)`.
fn find_dc(s: &str, from: usize, to: usize) -> (r: usize)
    requires
        from <= to,
        to <= s@.len(),
    ensures
        r == find_dc_spec(s@, from as int, to as int),
        from <= r <= to,
{
    let mut i: usize = from;
    while to - i > 1
        invariant
            from <= i <= to <= s@.len(),
            find_dc_spec(s@, from as int, to as int) == find_dc_spec(s@, i as int, to as int),
        decreases to - i,
    {
        if s.get_char(i) == ':' && s.get_char(i + 1) == ':' {
            return i;
        }
        i = i + 1;
    }
    to
}

/// One side of a compressed address: colon-separated groups of one to
/// four hexadecimal digits, read with the group being built carried as a
/// value and a digit count.
pub open spec fn v6_side_acc(s: Seq<char>, curval: nat, curlen: nat, acc: Seq<u64>) -> Option<
    Seq<u64>,
>
    decreases s.len(),
{
    if s.len() == 0 {
        if 1 <= curlen <= 4 {
            Some(acc.push(curval as u64))
        } else {
            None
        }
    } else if s[0] == ':' {
        if 1 <= curlen <= 4 {
            v6_side_acc(s.drop_first(), 0, 0, acc.push(curval as u64))
        } else {
            None
        }
    } else if is_hex_digit(s[0]) {
        if curlen >= 4 {
            None
        } else {
            v6_side_acc(s.drop_first(), curval * 16 + crate::text::hex_digit_val(s[0]), curlen + 1, acc)
        }
    } else {
        None
    }
}

/// The groups of one side; an empty side holds no groups.
pub open spec fn v6_side(s: Seq<char>) -> Option<Seq<u64>> {
    if s.len() == 0 {
        Some(Seq::empty())
    } else {
        v6_side_acc(s, 0, 0, Seq::empty())
    }
}

/// The value of a group list, leading group most significant.
pub open spec fn horner(gs: Seq<u64>) -> nat
    decreases gs.len(),
{
    if gs.len() == 0 {
        0
    } else {
        (horner(gs.drop_last()) * 0x10000 + gs.last()) as nat
    }
}

/// A list of 16-bit groups stays below its scale.
proof fn lemma_horner_bound(gs: Seq<u64>)
    requires
        forall|i: int| 0 <= i < gs.len() ==> #[trigger] gs[i] < 0x10000,
    ensures
        horner(gs) < gf((gs.len() + 1) as nat),
    decreases gs.len(),
{
    if gs.len() == 0 {
        assert(gf(1) == 1);
    } else {
        let g0 = gs.drop_last();
        assert(forall|i: int| 0 <= i < g0.len() ==> #[trigger] g0[i] < 0x10000) by {
            assert(forall|i: int| 0 <= i < g0.len() ==> g0[i] == gs[i]);
        }
        lemma_horner_bound(g0);
        assert(gs.last() < 0x10000);
        assert(gf((gs.len() + 1) as nat) == gf(gs.len() as nat) * 0x10000);
        assert(horner(g0) * 0x10000 + 0xFFFF < gf(gs.len() as nat) * 0x10000) by (nonlinear_arith)
            requires horner(g0) < gf(gs.len() as nat);
    }
}

/// The value of a compressed address: the left groups above, the right
/// groups below, zeros between.
pub open spec fn spec_compressed_val(left: Seq<u64>, right: Seq<u64>) -> nat {
    horner(left) * gf((9 - left.len()) as nat) + horner(right)
}

/// The whole IPv6 text grammar: the full eight-group form, or a `::`
/// splitting a left and a right side whose groups total at most seven.
pub open spec fn spec_parse_ipv6_text(s: Seq<char>, from: int, to: int) -> Option<u128> {
    let p = find_dc_spec(s, from, to);
    if p == to {
        spec_parse_ipv6(s, from, to)
    } else {
        match (v6_side(s.subrange(from, p)), v6_side(s.subrange(p + 2, to))) {
            (Some(l), Some(r)) => if l.len() + r.len() <= 7 {
                Some(spec_compressed_val(l, r) as u128)
            } else {
                None
            },
            _ => None,
        }
    }
}

/// Reads one side of a compressed address.
fn parse_v6_side(s: &str, from: usize, to: usize) -> (r: Option<Vec<u64>>)
    requires
        from <= to,
        to <= s@.len(),
    ensures
        match r {
            Some(gs) => v6_side(s@.subrange(from as int, to as int)) == Some(gs@) && forall|i: int|
                0 <= i < gs@.len() ==> #[trigger] gs@[i] < 0x10000,
            None => v6_side(s@.subrange(from as int, to as int)) is None,
        },
{
    if from == to {
        proof {
            assert(s@.subrange(from as int, to as int) =~= Seq::<char>::empty());
        }
        let gs: Vec<u64> = Vec::new();
        proof {
            assert(gs@ =~= Seq::<u64>::empty());
        }
        return Some(gs);
    }
    let mut acc: Vec<u64> = Vec::new();
    let mut curval: u64 = 0;
    let mut curlen: usize = 0;
    let mut i: usize = from;
    proof {
        assert(acc@ =~= Seq::<u64>::empty());
        assert(crate::text::pow16(0) == 1);
    }
    while i < to
        invariant
            from <= i <= to <= s@.len(),
            curlen <= 4,
            curval < 0x10000,
            (curval as nat) < crate::text::pow16(curlen as nat),
            forall|q: int| 0 <= q < acc@.len() ==> #[trigger] acc@[q] < 0x10000,
            v6_side_acc(s@.subrange(from as int, to as int), 0, 0, Seq::empty()) == v6_side_acc(
                s@.subrange(i as int, to as int),
                curval as nat,
                curlen as nat,
                acc@,
            ),
        decreases to - i,
    {
        let c = s.get_char(i);
        let ghost rest = s@.subrange(i as int, to as int);
        proof {
            assert(rest[0] == s@[i as int]);
            assert(rest.drop_first() =~= s@.subrange(i + 1, to as int));
        }
        if c == ':' {
            if !(1 <= curlen && curlen <= 4) {
                return None;
            }
            acc.push(curval);
            curval = 0;
            curlen = 0;
            proof {
                assert(crate::text::pow16(0) == 1);
            }
        } else if crate::text::char_is_hex(c) {
            if curlen >= 4 {
                return None;
            }
            proof {
                assert(crate::text::pow16(0) == 1);
                assert(crate::text::pow16(1) == 16);
                assert(crate::text::pow16(2) == 256);
                assert(crate::text::pow16(3) == 4096);
                assert(crate::text::pow16(4) == 65536);
                assert((curval as nat) * 16 + 15 < crate::text::pow16((curlen + 1) as nat))
                    by (nonlinear_arith)
                    requires
                        (curval as nat) < crate::text::pow16(curlen as nat),
                        crate::text::pow16((curlen + 1) as nat) == crate::text::pow16(
                            curlen as nat,
                        ) * 16,
                ;
                assert(crate::text::pow16((curlen + 1) as nat) <= 65536);
            }
            curval = curval * 16 + (crate::text::char_hex_val(c) as u64);
            curlen = curlen + 1;
        } else {
            return None;
        }
        i = i + 1;
    }
    proof {
        assert(s@.subrange(to as int, to as int) =~= Seq::<char>::empty());
    }
    if !(1 <= curlen && curlen <= 4) {
        return None;
    }
    acc.push(curval);
    Some(acc)
}

/// Computes the value of a group list.
fn horner_exec(gs: &Vec<u64>) -> (r: u128)
    requires
        forall|i: int| 0 <= i < gs@.len() ==> #[trigger] gs@[i] < 0x10000,
        gs@.len() <= 8,
    ensures
        r as nat == horner(gs@),
{
    let mut acc: u128 = 0;
    let mut i: usize = 0;
    proof {
        assert(gs@.subrange(0, 0) =~= Seq::<u64>::empty());
    }
    while i < gs.len()
        invariant
            i <= gs@.len() <= 8,
            forall|q: int| 0 <= q < gs@.len() ==> #[trigger] gs@[q] < 0x10000,
            acc as nat == horner(gs@.subrange(0, i as int)),
            (acc as nat) < gf((i + 1) as nat),
        decreases gs@.len() - i,
    {
        proof {
            assert(gs@.subrange(0, i + 1).drop_last() =~= gs@.subrange(0, i as int));
            assert(gs@.subrange(0, i + 1).last() == gs@[i as int]);
            lemma_gf_9();
            lemma_gf_le_9((i + 2) as nat);
            assert(gf((i + 2) as nat) == gf((i + 1) as nat) * 0x10000);
            assert((acc as nat) * 0x10000 + 0xFFFF < gf((i + 1) as nat) * 0x10000)
                by (nonlinear_arith)
                requires (acc as nat) < gf((i + 1) as nat);
            assert((acc as nat) * 0x10000 + (gs@[i as int] as nat) < gf(9));
            assert((acc as nat) * 0x10000 + (gs@[i as int] as nat) <= u128::MAX);
        }
        acc = acc * 0x10000 + (gs[i] as u128);
        i = i + 1;
    }
    proof {
        assert(gs@.subrange(0, gs@.len() as int) =~= gs@);
    }
    acc
}

proof fn lemma_gf_le_9(c: nat)
    requires
        c <= 9,
    ensures
        gf(c) <= gf(9),
    decreases 9 - c,
{
    if c == 0 {
        lemma_gf_le_9(1);
        assert(gf(0) == 1 && gf(1) == 1);
    } else if c < 9 {
        lemma_gf_le_9((c + 1) as nat);
        assert(gf((c + 1) as nat) == gf(c) * 0x10000);
        assert(gf(c) * 1 <= gf(c) * 0x10000) by (nonlinear_arith);
    }
}


/// Scales multiply: `gf(a) * gf(b) == gf(a + b - 1)`.
proof fn lemma_gf_mul(a: nat, b: nat)
    requires
        a >= 1,
        b >= 1,
    ensures
        gf(a) * gf(b) == gf((a + b - 1) as nat),
    decreases b,
{
    if b == 1 {
        assert(gf(1) == 1);
        assert(gf(a) * 1 == gf(a)) by (nonlinear_arith);
    } else {
        lemma_gf_mul(a, (b - 1) as nat);
        assert(gf(b) == gf((b - 1) as nat) * 0x10000);
        assert(gf((a + b - 1) as nat) == gf((a + b - 2) as nat) * 0x10000);
        assert(gf(a) * (gf((b - 1) as nat) * 0x10000) == (gf(a) * gf((b - 1) as nat)) * 0x10000)
            by (nonlinear_arith);
    }
}

/// Exec scale, for one to eight groups' worth.
fn gf_exec(c: usize) -> (r: u128)
    requires
        1 <= c <= 8,
    ensures
        r as nat == gf(c as nat),
{
    proof {
        lemma_gf_9();
        assert(gf(9) == gf(8) * 0x10000);
    }
    let mut k: usize = 1;
    let mut acc: u128 = 1;
    while k < c
        invariant
            1 <= k <= c <= 8,
            acc as nat == gf(k as nat),
        decreases c - k,
    {
        proof {
            lemma_gf_9();
            assert(gf(9) == gf(8) * 0x10000);
            lemma_gf_le_9((k + 1) as nat);
            assert(gf((k + 1) as nat) == gf(k as nat) * 0x10000);
            assert(gf((k + 1) as nat) <= gf(8)) by {
                lemma_gf_le_8((k + 1) as nat);
            }
        }
        acc = acc * 0x10000;
        k = k + 1;
    }
    acc
}

proof fn lemma_gf_le_8(c: nat)
    requires
        c <= 8,
    ensures
        gf(c) <= gf(8),
    decreases 8 - c,
{
    if c == 0 {
        assert(gf(0) == 1 && gf(1) == 1);
        lemma_gf_le_8(1);
    } else if c < 8 {
        lemma_gf_le_8((c + 1) as nat);
        assert(gf((c + 1) as nat) == gf(c) * 0x10000);
        assert(gf(c) * 1 <= gf(c) * 0x10000) by (nonlinear_arith);
    }
}

/// Reads an IPv6 address in full or compressed form over `[from, to)`;
/// the result agrees with the text grammar exactly.
pub fn parse_ipv6_text(s: &str, from: usize, to: usize) -> (r: Option<u128>)
    requires
        from <= to,
        to <= s@.len(),
    ensures
        r == spec_parse_ipv6_text(s@, from as int, to as int),
{
    proof {
        lemma_find_dc(s@, from as int, to as int);
    }
    let p = find_dc(s, from, to);
    if p == to {
        return parse_ipv6(s, from, to);
    }
    let left = match parse_v6_side(s, from, p) {
        None => {
            return None;
        },
        Some(l) => l,
    };
    let right = match parse_v6_side(s, p + 2, to) {
        None => {
            return None;
        },
        Some(r) => r,
    };
    if left.len() > 7 {
        return None;
    }
    if right.len() > 7 - left.len() {
        return None;
    }
    let hr = horner_exec(&right);
    if left.len() == 0 {
        proof {
            let gl = v6_side(s@.subrange(from as int, p as int))->0;
            assert(gl.len() == 0);
            assert(horner(gl) == 0);
            assert(spec_compressed_val(gl, v6_side(s@.subrange(p + 2, to as int))->0) == 0 * gf(
                9,
            ) + horner(v6_side(s@.subrange(p + 2, to as int))->0));
            assert(0 * gf(9) == 0) by (nonlinear_arith);
        }
        return Some(hr);
    }
    let hl = horner_exec(&left);
    let shift = gf_exec(9 - left.len());
    proof {
        let ll = left@.len() as nat;
        let rl = right@.len() as nat;
        lemma_horner_bound(left@);
        lemma_horner_bound(right@);
        lemma_gf_mul((ll + 1) as nat, (9 - ll) as nat);
        lemma_gf_9();
        // The left part fills the top groups and the right part stays under
        // the gap, so the sum stays inside the address space.
        assert(horner(left@) * gf((9 - ll) as nat) + gf((9 - ll) as nat) <= gf((ll + 1) as nat)
            * gf((9 - ll) as nat)) by (nonlinear_arith)
            requires horner(left@) < gf((ll + 1) as nat);
        lemma_gf_mono((rl + 1) as nat, (9 - ll) as nat);
        assert(horner(right@) < gf((9 - ll) as nat));
        assert(horner(left@) * gf((9 - ll) as nat) + horner(right@) < gf(9));
        assert((hl as nat) * (shift as nat) + (hr as nat) <= u128::MAX);
    }
    Some(hl * shift + hr)
}

proof fn lemma_gf_mono(a: nat, b: nat)
    requires
        a <= b,
    ensures
        gf(a) <= gf(b),
    decreases b,
{
    if a < b {
        lemma_gf_mono(a, (b - 1) as nat);
        if b >= 2 {
            assert(gf(b) == gf((b - 1) as nat) * 0x10000);
            assert(gf((b - 1) as nat) * 1 <= gf((b - 1) as nat) * 0x10000) by (nonlinear_arith);
        }
    }
}

/// The canonical rendering of any IP code: dotted quad for IPv4, eight
/// hexadecimal groups for IPv6.
pub open spec fn ip_text(ip: u128) -> Seq<char> {
    if is_v4_code(ip) {
        ipv4_text(spec_v4_val(ip))
    } else {
        ipv6_text(ip)
    }
}

/// Renders an IP code canonically.
pub fn format_ip(ip: u128) -> (r: String)
    ensures
        r@ == ip_text(ip),
{
    if code_is_v4(ip) {
        format_ipv4(v4_val(ip))
    } else {
        format_ipv6(ip)
    }
}

/// The code of `s[from..to)` read as an IP address: a dotted quad, else a
/// full-form IPv6 address.
pub open spec fn spec_parse_ip(s: Seq<char>, from: int, to: int) -> Option<u128> {
    match spec_parse_ipv4(s, from, to) {
        Some(v) => Some(spec_v4_code(v as nat)),
        None => spec_parse_ipv6_text(s, from, to),
    }
}

/// Reads an IP address over `[from, to)`; the result agrees with the
/// grammar exactly.
pub fn parse_ip(s: &str, from: usize, to: usize) -> (r: Option<u128>)
    requires
        from <= to,
        to <= s@.len(),
    ensures
        r == spec_parse_ip(s@, from as int, to as int),
{
    match parse_ipv4(s, from, to) {
        Some(v) => Some(v4_code(v)),
        None => parse_ipv6_text(s, from, to),
    }
}

/// Reads a whole string as an IP address.
pub fn parse_ip_str(s: &str) -> (r: Option<u128>)
    ensures
        r == spec_parse_ip(s@, 0, s@.len() as int),
{
    let n = s.unicode_len();
    parse_ip(s, 0, n)
}

/// Round trip: the canonical rendering of any IP code parses back to it.
pub proof fn lemma_parse_ip_text(ip: u128)
    ensures
        spec_parse_ip(ip_text(ip), 0, ip_text(ip).len() as int) == Some(ip),
{
    let text = ip_text(ip);
    if is_v4_code(ip) {
        let v = spec_v4_val(ip);
        assert(v < 0x1_0000_0000);
        assert(text.subrange(0, text.len() as int) =~= ipv4_text(v));
        lemma_parse_ipv4_complete(text, 0, text.len() as int, v);
        assert(spec_v4_code(v) == ip);
    } else {
        // A full-form IPv6 rendering holds no dot, so the dotted-quad
        // reading fails and the IPv6 reading decides; and it holds no
        // adjacent colons, so the full-form branch of the grammar applies.
        lemma_v6_text_chars(ip, 0);
        lemma_v6_text_shape(ip, 0);
        assert(text == v6_tail_text(ip, 0));
        lemma_find_dc(text, 0, text.len() as int);
        let pdc = find_dc_spec(text, 0, text.len() as int);
        if pdc != text.len() as int {
            assert(text[pdc] == ':' && text[pdc + 1] == ':');
        }
        assert(pdc == text.len() as int);
        assert(spec_parse_ipv6_text(text, 0, text.len() as int) == spec_parse_ipv6(
            text,
            0,
            text.len() as int,
        ));
        assert('.' as int == 46);
        lemma_digit_run_end(text, 0, text.len() as int);
        match spec_parse_octet(text, 0, text.len() as int) {
            None => {},
            Some((a, p1)) => {
                assert(p1 == digit_run_end(text, 0, text.len() as int));
                assert(0 <= p1 <= text.len());
                if p1 < text.len() {
                    assert(is_hex_digit(v6_tail_text(ip, 0)[p1]) || v6_tail_text(ip, 0)[p1] == ':');
                    assert(is_hex_digit(text[p1]) || text[p1] == ':');
                    assert(text[p1] != '.') by {
                        if is_hex_digit(text[p1]) {
                            assert(text[p1] as int != 46);
                        }
                    }
                }
            },
        }
        assert(spec_parse_ipv4(text, 0, text.len() as int) is None);
        assert(text.subrange(0, text.len() as int) =~= v6_tail_text(ip, 0));
        lemma_v6_groups_complete(text, 0, text.len() as int, ip, 0);
        lemma_v6_tail_val_total(ip, 0);
        lemma_gf_9();
        assert(gdiv(0) * 0x10000 == gf(9));
        assert((ip as nat) < gf(9));
        vstd::arithmetic::div_mod::lemma_small_mod(ip as nat, (gdiv(0) * 0x10000) as nat);
        assert((ip as nat) % (gdiv(0) * 0x10000) == ip as nat);
        assert(spec_parse_ipv6(text, 0, text.len() as int) == Some(ip));
    }
}

/// Two to the power `k`.
pub open spec fn pow2n(k: nat) -> nat
    decreases k,
{
    if k == 0 { 1 } else { pow2n((k - 1) as nat) * 2 }
}

proof fn lemma_pow2n_mono(a: nat, b: nat)
    requires
        a <= b,
    ensures
        pow2n(a) <= pow2n(b),
    decreases b,
{
    if a < b {
        lemma_pow2n_mono(a, (b - 1) as nat);
        assert(pow2n(b) == pow2n((b - 1) as nat) * 2);
        assert(pow2n((b - 1) as nat) * 2 >= pow2n((b - 1) as nat) * 1) by (nonlinear_arith);
    }
}

proof fn lemma_pow2n_adds(a: nat, b: nat)
    ensures
        pow2n(a + b) == pow2n(a) * pow2n(b),
    decreases b,
{
    if b == 0 {
        assert(pow2n(a) * 1 == pow2n(a)) by (nonlinear_arith);
    } else {
        lemma_pow2n_adds(a, (b - 1) as nat);
        assert(pow2n(a + b) == pow2n((a + b - 1) as nat) * 2);
        assert((a + b - 1) as nat == a + ((b - 1) as nat));
        assert(pow2n(b) == pow2n((b - 1) as nat) * 2);
        assert((pow2n(a) * pow2n((b - 1) as nat)) * 2 == pow2n(a) * (pow2n((b - 1) as nat) * 2))
            by (nonlinear_arith);
    }
}

proof fn lemma_pow2n_127()
    ensures
        pow2n(127) == 0x80000000000000000000000000000000,
        pow2n(128) == pow2n(127) * 2,
{
    reveal_with_fuel(pow2n, 17);
    assert(pow2n(16) == 0x10000);
    assert(pow2n(15) == 0x8000);
    lemma_pow2n_adds(16, 16);
    assert(pow2n(32) == 0x100000000);
    lemma_pow2n_adds(32, 32);
    assert(pow2n(64) == 0x10000000000000000);
    lemma_pow2n_adds(64, 32);
    assert(pow2n(96) == 0x1000000000000000000000000);
    lemma_pow2n_adds(96, 16);
    assert(pow2n(112) == 0x10000000000000000000000000000);
    lemma_pow2n_adds(112, 15);
    assert(pow2n(127) == 0x80000000000000000000000000000000);
    assert(pow2n(128) == pow2n(127) * 2);
}

/// Exec power of two, up to `2^127`.
fn pow2_u128(e: usize) -> (r: u128)
    requires
        e <= 127,
    ensures
        r as nat == pow2n(e as nat),
        r >= 1,
{
    let mut k: usize = 0;
    let mut acc: u128 = 1;
    while k < e
        invariant
            k <= e <= 127,
            acc as nat == pow2n(k as nat),
        decreases e - k,
    {
        proof {
            lemma_pow2n_mono((k + 1) as nat, 127);
            lemma_pow2n_127();
            assert(pow2n((k + 1) as nat) == pow2n(k as nat) * 2);
        }
        acc = acc * 2;
        k = k + 1;
    }
    proof {
        lemma_pow2n_mono(0, e as nat);
    }
    acc
}

/// A CIDR block: a base address and a prefix length, within one family.
#[derive(Clone, Copy, Debug, PartialEq, Eq, Structural)]
pub struct Cidr {
    pub base: u128,
    pub prefix: u8,
    pub v4: bool,
}

impl Cidr {
    /// The prefix length fits the family and the base lies in it.
    pub open spec fn wf(self) -> bool {
        if self.v4 {
            is_v4_code(self.base) && self.prefix <= 32
        } else {
            self.prefix <= 128
        }
    }

    /// Membership: the families agree and the addresses agree above the
    /// suffix, that is after division by two to the suffix length.
    pub open spec fn spec_contains(self, ip: u128) -> bool {
        if self.v4 {
            is_v4_code(ip) && spec_v4_val(ip) / pow2n((32 - self.prefix) as nat) == spec_v4_val(
                self.base,
            ) / pow2n((32 - self.prefix) as nat)
        } else {
            !is_v4_code(ip) && (ip as nat) / pow2n((128 - self.prefix) as nat) == (
            self.base as nat) / pow2n((128 - self.prefix) as nat)
        }
    }

    /// Exec membership test.
    pub fn contains(&self, ip: u128) -> (r: bool)
        requires
            self.wf(),
        ensures
            r == self.spec_contains(ip),
    {
        if self.v4 {
            if !code_is_v4(ip) {
                return false;
            }
            let suffix = 32 - (self.prefix as usize);
            let div = pow2_u128(suffix);
            let a = v4_val(ip) as u128;
            let b = v4_val(self.base) as u128;
            a / div == b / div
        } else {
            if code_is_v4(ip) {
                return false;
            }
            if self.prefix == 0 {
                // The whole space: both quotients by 2^128 vanish.
                proof {
                    lemma_pow2n_127();
                    vstd::arithmetic::div_mod::lemma_basic_div(
                        ip as int,
                        pow2n(128) as int,
                    );
                    vstd::arithmetic::div_mod::lemma_basic_div(
                        self.base as int,
                        pow2n(128) as int,
                    );
                }
                return true;
            }
            let suffix = 128 - (self.prefix as usize);
            let div = pow2_u128(suffix);
            ip / div == self.base / div
        }
    }
}

/// Where the first `sep` stands in `s[from..to)`, or `to` if none does.
pub open spec fn find_char_spec(s: Seq<char>, from: int, to: int, sep: char) -> int
    decreases to - from,
{
    if from < 0 || to > s.len() || from >= to {
        to
    } else if s[from] == sep {
        from
    } else {
        find_char_spec(s, from + 1, to, sep)
    }
}

pub proof fn lemma_find_char(s: Seq<char>, from: int, to: int, sep: char)
    requires
        0 <= from <= to <= s.len(),
    ensures
        from <= find_char_spec(s, from, to, sep) <= to,
        forall|j: int| from <= j < find_char_spec(s, from, to, sep) ==> s[j] != sep,
        find_char_spec(s, from, to, sep) < to ==> s[find_char_spec(s, from, to, sep)] == sep,
    decreases to - from,
{
    if from < to && s[from] != sep {
        lemma_find_char(s, from + 1, to, sep);
    }
}

/// Exec scan for the first `sep` in `s[from..to)`.
pub fn find_char(s: &str, from: usize, to: usize, sep: char) -> (r: usize)
    requires
        from <= to,
        to <= s@.len(),
    ensures
        r == find_char_spec(s@, from as int, to as int, sep),
        from <= r <= to,
{
    let mut i: usize = from;
    while i < to
        invariant
            from <= i <= to <= s@.len(),
            find_char_spec(s@, from as int, to as int, sep) == find_char_spec(
                s@,
                i as int,
                to as int,
                sep,
            ),
            forall|j: int| from <= j < i ==> s@[j] != sep,
        decreases to - i,
    {
        if s.get_char(i) == sep {
            return i;
        }
        i = i + 1;
    }
    to
}

/// The block denoted by `s[from..to)`: an IP address optionally followed by
/// `/` and a prefix length within the family's range.  A bare address is the
/// block holding it alone.
pub open spec fn spec_parse_cidr(s: Seq<char>, from: int, to: int) -> Option<Cidr> {
    let slash = find_char_spec(s, from, to, '/');
    if slash == to {
        match spec_parse_ip(s, from, to) {
            None => None,
            Some(ip) => Some(
                Cidr {
                    base: ip,
                    prefix: if is_v4_code(ip) { 32 } else { 128 },
                    v4: is_v4_code(ip),
                },
            ),
        }
    } else {
        match spec_parse_ip(s, from, slash) {
            None => None,
            Some(ip) => {
                let e = digit_run_end(s, slash + 1, to);
                if e != to || e == slash + 1 {
                    None
                } else {
                    let p = dec_val(s.subrange(slash + 1, e));
                    let bound: nat = if is_v4_code(ip) { 32 } else { 128 };
                    if p > bound {
                        None
                    } else {
                        Some(Cidr { base: ip, prefix: p as u8, v4: is_v4_code(ip) })
                    }
                }
            },
        }
    }
}

/// Reads a CIDR block; the result agrees with the grammar exactly, and is
/// well-formed.
pub fn parse_cidr(s: &str, from: usize, to: usize) -> (r: Option<Cidr>)
    requires
        from <= to,
        to <= s@.len(),
    ensures
        r == spec_parse_cidr(s@, from as int, to as int),
        r is Some ==> r->0.wf(),
{
    let slash = find_char(s, from, to, '/');
    if slash == to {
        match parse_ip(s, from, to) {
            None => None,
            Some(ip) => {
                let v4 = code_is_v4(ip);
                Some(Cidr { base: ip, prefix: if v4 { 32 } else { 128 }, v4 })
            },
        }
    } else {
        match parse_ip(s, from, slash) {
            None => None,
            Some(ip) => {
                proof {
                    lemma_digit_run_end(s@, slash + 1, to as int);
                }
                match parse_dec_run(s, slash + 1, to) {
                    None => {
                        proof {
                            let e = digit_run_end(s@, slash + 1, to as int);
                            if e != slash + 1 && dec_val(s@.subrange(slash + 1, e)) > u64::MAX {
                                // An overflowing run cannot be a valid
                                // prefix length.
                            }
                        }
                        None
                    },
                    Some((p, e)) => {
                        if e != to {
                            None
                        } else {
                            let v4 = code_is_v4(ip);
                            let bound: u64 = if v4 { 32 } else { 128 };
                            if p > bound {
                                None
                            } else {
                                Some(Cidr { base: ip, prefix: p as u8, v4 })
                            }
                        }
                    },
                }
            },
        }
    }
}

/// The octet decomposition of a 32-bit value recomposes to the value.
proof fn lemma_v4_decompose(v: nat)
    requires
        v < 0x1_0000_0000,
    ensures
        (v / 0x1000000 % 256) * 0x1000000 + (v / 0x10000 % 256) * 0x10000 + (v / 0x100 % 256)
            * 0x100 + v % 256 == v,
{
    let a = v / 0x1000000;
    assert(a < 256);
    assert(a % 256 == a);
    assert(v % 0x1000000 == v - a * 0x1000000) by (nonlinear_arith)
        requires a == v / 0x1000000;
    let r1 = (v % 0x1000000) as nat;
    assert(v / 0x10000 % 256 == r1 / 0x10000) by (nonlinear_arith)
        requires r1 == v % 0x1000000 && v < 0x1_0000_0000;
    let b = r1 / 0x10000;
    assert(b < 256);
    assert(r1 % 0x10000 == r1 - b * 0x10000) by (nonlinear_arith)
        requires b == r1 / 0x10000;
    let r2 = (r1 % 0x10000) as nat;
    assert(v / 0x100 % 256 == r2 / 0x100) by (nonlinear_arith)
        requires r2 == v % 0x10000 && v < 0x1_0000_0000;
    assert(r2 == v % 0x10000) by (nonlinear_arith)
        requires r1 == v % 0x1000000 && r2 == r1 % 0x10000;
    let c = r2 / 0x100;
    assert(c < 256);
    assert(r2 % 0x100 == r2 - c * 0x100) by (nonlinear_arith)
        requires c == r2 / 0x100;
    assert(r2 % 0x100 == v % 0x100) by (nonlinear_arith)
        requires r2 == v % 0x10000;
}

} // verus!
