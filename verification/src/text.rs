//! Text utilities: single-character edits on `String`, decimal and
//! hexadecimal digit strings with their parse/format round trips, and
//! whitespace trimming.

use vstd::prelude::*;
use vstd::string::StrSliceExecFns;

verus! {

/// Relies on `String::push`: appends one character at the end.
#[verifier::external_body]
pub(crate) fn push_char(s: &mut String, c: char)
    ensures
        final(s)@ == old(s)@.push(c),
{
    s.push(c);
}

/// Relies on `String::pop`: removes and returns the last character, if any.
#[verifier::external_body]
pub(crate) fn pop_char(s: &mut String) -> (r: Option<char>)
    ensures
        old(s)@.len() == 0 ==> final(s)@ == old(s)@ && r is None,
        old(s)@.len() > 0 ==> final(s)@ == old(s)@.drop_last() && r == Some(old(s)@.last()),
{
    s.pop()
}

/// Relies on `String::clear`: empties the string.
#[verifier::external_body]
pub(crate) fn clear_string(s: &mut String)
    ensures
        final(s)@ == Seq::<char>::empty(),
{
    s.clear();
}

/// Decimal digit predicates and values.
pub open spec fn is_digit(c: char) -> bool {
    '0' <= c && c <= '9'
}

pub open spec fn digit_val(c: char) -> nat {
    ((c as int) - 48) as nat
}

pub open spec fn digit_char(d: nat) -> char {
    if d == 0 { '0' }
    else if d == 1 { '1' }
    else if d == 2 { '2' }
    else if d == 3 { '3' }
    else if d == 4 { '4' }
    else if d == 5 { '5' }
    else if d == 6 { '6' }
    else if d == 7 { '7' }
    else if d == 8 { '8' }
    else { '9' }
}

pub open spec fn all_digits(s: Seq<char>) -> bool {
    forall|i: int| 0 <= i < s.len() ==> is_digit(#[trigger] s[i])
}

/// The canonical decimal rendering of `n`, most significant digit first.
pub open spec fn dec_digits(n: nat) -> Seq<char>
    decreases n,
{
    if n < 10 {
        seq![digit_char(n)]
    } else {
        dec_digits(n / 10).push(digit_char(n % 10))
    }
}

/// The value of a digit string, 0 for the empty string.
pub open spec fn dec_val(s: Seq<char>) -> nat
    decreases s.len(),
{
    if s.len() == 0 {
        0
    } else {
        dec_val(s.drop_last()) * 10 + digit_val(s.last())
    }
}

pub proof fn lemma_digit_char_val(d: nat)
    requires
        d < 10,
    ensures
        is_digit(digit_char(d)),
        digit_val(digit_char(d)) == d,
{
}

/// Every canonical rendering consists of digits, is non-empty, and begins
/// with a non-zero digit unless it is `"0"`.
pub proof fn lemma_dec_digits_shape(n: nat)
    ensures
        dec_digits(n).len() >= 1,
        all_digits(dec_digits(n)),
        n > 0 ==> dec_digits(n)[0] != '0',
        n < 10 ==> dec_digits(n).len() == 1,
    decreases n,
{
    if n < 10 {
        lemma_digit_char_val(n);
        assert(dec_digits(n) == seq![digit_char(n)]);
    } else {
        lemma_dec_digits_shape(n / 10);
        lemma_digit_char_val(n % 10);
        let prev = dec_digits(n / 10);
        let s = prev.push(digit_char(n % 10));
        assert forall|i: int| 0 <= i < s.len() implies is_digit(#[trigger] s[i]) by {
            if i < prev.len() {
                assert(s[i] == prev[i]);
            }
        }
        assert(s[0] == prev[0]);
    }
}

/// Parsing the canonical rendering gives the number back.
pub proof fn lemma_dec_roundtrip(n: nat)
    ensures
        dec_val(dec_digits(n)) == n,
    decreases n,
{
    if n < 10 {
        lemma_digit_char_val(n);
        let s = dec_digits(n);
        assert(s =~= seq![digit_char(n)]);
        assert(s.drop_last() =~= Seq::<char>::empty());
        assert(dec_val(s) == dec_val(s.drop_last()) * 10 + digit_val(s.last()));
        assert(dec_val(Seq::<char>::empty()) == 0);
    } else {
        lemma_dec_roundtrip(n / 10);
        lemma_digit_char_val(n % 10);
        let s = dec_digits(n);
        assert(s =~= dec_digits(n / 10).push(digit_char(n % 10)));
        assert(s.drop_last() =~= dec_digits(n / 10));
        assert(s.last() == digit_char(n % 10));
        assert(dec_val(s) == (n / 10) * 10 + (n % 10));
        assert((n / 10) * 10 + (n % 10) == n);
    }
}

/// `dec_val` over a concatenation: the left part is scaled by a power of ten.
pub open spec fn pow10(k: nat) -> nat
    decreases k,
{
    if k == 0 { 1 } else { pow10((k - 1) as nat) * 10 }
}

pub proof fn lemma_dec_val_concat(a: Seq<char>, b: Seq<char>)
    ensures
        dec_val(a + b) == dec_val(a) * pow10(b.len()) + dec_val(b),
    decreases b.len(),
{
    if b.len() == 0 {
        assert(a + b == a);
        assert(dec_val(a) * 1 == dec_val(a)) by (nonlinear_arith);
    } else {
        let b0 = b.drop_last();
        lemma_dec_val_concat(a, b0);
        assert((a + b).drop_last() == a + b0);
        assert((a + b).last() == b.last());
        assert(dec_val(a + b) == dec_val(a + b0) * 10 + digit_val(b.last()));
        assert(dec_val(b) == dec_val(b0) * 10 + digit_val(b.last()));
        assert(pow10(b.len()) == pow10(b0.len()) * 10);
        assert((dec_val(a) * pow10(b0.len()) + dec_val(b0)) * 10 == dec_val(a) * (pow10(b0.len())
            * 10) + dec_val(b0) * 10) by (nonlinear_arith);
    }
}

/// A longer digit string never has a smaller value.
pub proof fn lemma_dec_val_extend_ge(a: Seq<char>, b: Seq<char>)
    ensures
        dec_val(a + b) >= dec_val(a),
{
    lemma_dec_val_concat(a, b);
    lemma_pow10_pos(b.len());
    assert(dec_val(a) * pow10(b.len()) >= dec_val(a) * 1) by (nonlinear_arith)
        requires pow10(b.len()) >= 1;
}

pub proof fn lemma_pow10_pos(k: nat)
    ensures
        pow10(k) >= 1,
    decreases k,
{
    if k > 0 {
        lemma_pow10_pos((k - 1) as nat);
    }
}

/// The end of the run of digits that starts at `i`, scanning no further
/// than `end`.
pub open spec fn digit_run_end(s: Seq<char>, i: int, end: int) -> int
    decreases end - i,
{
    if i < 0 || end > s.len() {
        i
    } else if i < end && is_digit(s[i]) {
        digit_run_end(s, i + 1, end)
    } else {
        i
    }
}

pub proof fn lemma_digit_run_end(s: Seq<char>, i: int, end: int)
    requires
        0 <= i <= end <= s.len(),
    ensures
        i <= digit_run_end(s, i, end) <= end,
        forall|j: int| i <= j < digit_run_end(s, i, end) ==> is_digit(#[trigger] s[j]),
        digit_run_end(s, i, end) < end ==> !is_digit(s[digit_run_end(s, i, end)]),
    decreases end - i,
{
    if i < end && is_digit(s[i]) {
        lemma_digit_run_end(s, i + 1, end);
    }
}

/// Exec test for a decimal digit.
pub fn char_is_digit(c: char) -> (r: bool)
    ensures
        r == is_digit(c),
{
    '0' <= c && c <= '9'
}

/// Exec digit value.
pub fn char_digit_val(c: char) -> (r: u32)
    requires
        is_digit(c),
    ensures
        r == digit_val(c),
        r < 10,
{
    (c as u32) - 48
}

/// Exec rendering of one digit.
pub fn char_of_digit(d: u64) -> (c: char)
    requires
        d < 10,
    ensures
        c == digit_char(d as nat),
{
    match d {
        0 => '0',
        1 => '1',
        2 => '2',
        3 => '3',
        4 => '4',
        5 => '5',
        6 => '6',
        7 => '7',
        8 => '8',
        _ => '9',
    }
}

/// Appends the canonical decimal rendering of `n` to `out`.
pub fn push_dec(out: &mut String, n: u64)
    ensures
        final(out)@ == old(out)@ + dec_digits(n as nat),
    decreases n,
{
    if n < 10 {
        push_char(out, char_of_digit(n));
        assert(final(out)@ == old(out)@ + dec_digits(n as nat));
    } else {
        push_dec(out, n / 10);
        push_char(out, char_of_digit(n % 10));
        assert(final(out)@ == old(out)@ + dec_digits((n / 10) as nat).push(digit_char((n % 10) as nat)));
        assert(old(out)@ + dec_digits((n / 10) as nat).push(digit_char((n % 10) as nat))
            == old(out)@ + dec_digits(n as nat));
    }
}

/// The canonical decimal rendering of `n` as a fresh string.
pub fn u64_to_string(n: u64) -> (r: String)
    ensures
        r@ == dec_digits(n as nat),
{
    let mut s = String::new();
    push_dec(&mut s, n);
    assert(s@ == Seq::<char>::empty() + dec_digits(n as nat));
    assert(Seq::<char>::empty() + dec_digits(n as nat) == dec_digits(n as nat));
    s
}

/// Reads the run of decimal digits that starts at `start` and returns its
/// value together with the position just past the run.  `None` when no digit
/// stands at `start` or the value does not fit in a `u64`.
pub fn parse_dec_run(s: &str, start: usize, end: usize) -> (r: Option<(u64, usize)>)
    requires
        start <= end,
        end <= s@.len(),
    ensures
        ({
            let run_end = digit_run_end(s@, start as int, end as int);
            match r {
                Some(p) => {
                    &&& start < p.1
                    &&& p.1 <= end
                    &&& p.1 == run_end
                    &&& all_digits(s@.subrange(start as int, p.1 as int))
                    &&& p.0 == dec_val(s@.subrange(start as int, p.1 as int))
                },
                None => start == run_end || dec_val(s@.subrange(start as int, run_end)) > u64::MAX,
            }
        }),
{
    proof {
        lemma_digit_run_end(s@, start as int, end as int);
    }
    let ghost run_end = digit_run_end(s@, start as int, end as int);
    let mut i: usize = start;
    let mut acc: u64 = 0;
    loop
        invariant
            start <= i <= end,
            end <= s@.len(),
            i <= run_end <= end,
            run_end == digit_run_end(s@, start as int, end as int),
            forall|j: int| start <= j < run_end ==> is_digit(#[trigger] s@[j]),
            run_end < end ==> !is_digit(s@[run_end]),
            i < run_end ==> is_digit(s@[i as int]),
            acc == dec_val(s@.subrange(start as int, i as int)),
            forall|j: int| start <= j < i ==> is_digit(#[trigger] s@[j]),
        ensures
            start <= i <= end,
            i == digit_run_end(s@, start as int, end as int),
            acc == dec_val(s@.subrange(start as int, i as int)),
        decreases end - i,
    {
        if i >= end {
            proof {
                assert(i <= run_end <= end);
            }
            break;
        }
        let c = s.get_char(i);
        if !char_is_digit(c) {
            proof {
                if i < run_end {
                    assert(is_digit(s@[i as int]));
                }
            }
            break;
        }
        proof {
            // i lies inside the digit run, so it is below run_end.
            lemma_digit_run_inside(s@, start as int, i as int, end as int);
        }
        let d = char_digit_val(c) as u64;
        if acc > (u64::MAX - d) / 10 {
            proof {
                lemma_overflow_means_large(s@, start as int, i as int, end as int, run_end, acc, d);
            }
            return None;
        }
        proof {
            assert(acc <= (u64::MAX - d) / 10);
            assert(acc * 10 <= ((u64::MAX - d) / 10) * 10 <= u64::MAX - d) by (nonlinear_arith)
                requires acc <= (u64::MAX - d) / 10 && d <= u64::MAX;
            assert(s@.subrange(start as int, i + 1).drop_last() =~= s@.subrange(
                start as int,
                i as int,
            ));
            assert(s@.subrange(start as int, i + 1).last() == s@[i as int]);
        }
        acc = acc * 10 + d;
        i = i + 1;
    }
    if i == start {
        None
    } else {
        Some((acc, i))
    }
}

/// Inside the digit run every position is strictly below its end.
proof fn lemma_digit_run_inside(s: Seq<char>, start: int, i: int, end: int)
    requires
        0 <= start <= i < end <= s.len(),
        forall|j: int| start <= j < i ==> is_digit(#[trigger] s[j]),
        is_digit(s[i]),
    ensures
        i < digit_run_end(s, start, end),
    decreases i - start,
{
    if start == i {
        assert(digit_run_end(s, start, end) == digit_run_end(s, start + 1, end));
        lemma_digit_run_end(s, start + 1, end);
    } else {
        assert(is_digit(s[start]));
        assert(digit_run_end(s, start, end) == digit_run_end(s, start + 1, end));
        lemma_digit_run_inside(s, start + 1, i, end);
    }
}

/// If the accumulated prefix would overflow, the whole run's value is too
/// large for a `u64`.
proof fn lemma_overflow_means_large(
    s: Seq<char>,
    start: int,
    i: int,
    end: int,
    run_end: int,
    acc: u64,
    d: u64,
)
    requires
        0 <= start <= i < end <= s.len(),
        is_digit(s[i]),
        d == digit_val(s[i]),
        run_end == digit_run_end(s, start, end),
        forall|j: int| start <= j < run_end ==> is_digit(#[trigger] s[j]),
        i < run_end <= end,
        acc == dec_val(s.subrange(start, i)),
        acc > (u64::MAX - d) / 10,
    ensures
        dec_val(s.subrange(start, run_end)) > u64::MAX,
{
    let pre = s.subrange(start, i + 1);
    assert(pre.drop_last() =~= s.subrange(start, i));
    assert(pre.last() == s[i]);
    assert(dec_val(pre) == acc * 10 + d);
    assert(acc >= (u64::MAX - d) / 10 + 1);
    assert(((u64::MAX - d) / 10 + 1) * 10 > u64::MAX - d) by (nonlinear_arith);
    assert(acc * 10 >= ((u64::MAX - d) / 10 + 1) * 10) by (nonlinear_arith)
        requires acc >= (u64::MAX - d) / 10 + 1;
    assert(dec_val(pre) > u64::MAX);
    let full = s.subrange(start, run_end);
    assert(full =~= pre + s.subrange(i + 1, run_end));
    lemma_dec_val_extend_ge(pre, s.subrange(i + 1, run_end));
}

/// A digit string's value is below ten to its length.
pub proof fn lemma_dec_val_len_bound(s: Seq<char>)
    requires
        all_digits(s),
    ensures
        dec_val(s) < pow10(s.len()),
    decreases s.len(),
{
    if s.len() == 0 {
        assert(pow10(0) == 1);
    } else {
        let s0 = s.drop_last();
        assert(all_digits(s0));
        lemma_dec_val_len_bound(s0);
        assert(is_digit(s.last()));
        assert(digit_val(s.last()) <= 9);
        assert(dec_val(s) == dec_val(s0) * 10 + digit_val(s.last()));
        assert(pow10(s.len()) == pow10(s0.len()) * 10);
        assert(dec_val(s0) * 10 + 9 < pow10(s0.len()) * 10) by (nonlinear_arith)
            requires dec_val(s0) < pow10(s0.len());
    }
}

/// A run of `k` digits bounded on the right ends exactly at `i + k`.
pub proof fn lemma_run_is(s: Seq<char>, i: int, end: int, k: int)
    requires
        0 <= i,
        k >= 0,
        i + k <= end <= s.len(),
        forall|j: int| i <= j < i + k ==> is_digit(#[trigger] s[j]),
        i + k < end ==> !is_digit(s[i + k]),
    ensures
        digit_run_end(s, i, end) == i + k,
{
    lemma_digit_run_end(s, i, end);
    let e = digit_run_end(s, i, end);
    if e < i + k {
        assert(is_digit(s[e]));
        assert(e < end);
    }
    if e > i + k {
        assert(is_digit(s[i + k]));
    }
}

/// Character-for-character string equality.
pub fn str_eq(a: &str, b: &str) -> (r: bool)
    ensures
        r == (a@ == b@),
{
    let la = a.unicode_len();
    let lb = b.unicode_len();
    if la != lb {
        proof {
            assert(a@.len() != b@.len());
        }
        return false;
    }
    let mut i: usize = 0;
    while i < la
        invariant
            la == a@.len(),
            la == b@.len(),
            i <= la,
            forall|j: int| 0 <= j < i ==> a@[j] == b@[j],
        decreases la - i,
    {
        if a.get_char(i) != b.get_char(i) {
            proof {
                assert(a@[i as int] != b@[i as int]);
            }
            return false;
        }
        i = i + 1;
    }
    proof {
        assert(a@ =~= b@);
    }
    true
}

/// Hexadecimal digit predicates and values; rendering is lowercase, parsing
/// accepts both cases.
pub open spec fn is_hex_digit(c: char) -> bool {
    is_digit(c) || ('a' <= c && c <= 'f') || ('A' <= c && c <= 'F')
}

pub open spec fn hex_digit_val(c: char) -> nat {
    if is_digit(c) {
        digit_val(c)
    } else if 'a' <= c && c <= 'f' {
        ((c as int) - 87) as nat
    } else {
        ((c as int) - 55) as nat
    }
}

pub open spec fn hex_digit_char(d: nat) -> char {
    if d < 10 { digit_char(d) }
    else if d == 10 { 'a' }
    else if d == 11 { 'b' }
    else if d == 12 { 'c' }
    else if d == 13 { 'd' }
    else if d == 14 { 'e' }
    else { 'f' }
}

pub open spec fn all_hex(s: Seq<char>) -> bool {
    forall|i: int| 0 <= i < s.len() ==> is_hex_digit(#[trigger] s[i])
}

/// The minimal lowercase hexadecimal rendering of `n`.
pub open spec fn hex_digits(n: nat) -> Seq<char>
    decreases n,
{
    if n < 16 {
        seq![hex_digit_char(n)]
    } else {
        hex_digits(n / 16).push(hex_digit_char(n % 16))
    }
}

/// The value of a hexadecimal digit string, 0 for the empty string.
pub open spec fn hex_val(s: Seq<char>) -> nat
    decreases s.len(),
{
    if s.len() == 0 {
        0
    } else {
        hex_val(s.drop_last()) * 16 + hex_digit_val(s.last())
    }
}

pub proof fn lemma_hex_digit_char_val(d: nat)
    requires
        d < 16,
    ensures
        is_hex_digit(hex_digit_char(d)),
        hex_digit_val(hex_digit_char(d)) == d,
{
}

pub proof fn lemma_hex_digits_shape(n: nat)
    ensures
        hex_digits(n).len() >= 1,
        all_hex(hex_digits(n)),
        n < 16 ==> hex_digits(n).len() == 1,
    decreases n,
{
    if n < 16 {
        lemma_hex_digit_char_val(n);
        assert(hex_digits(n) == seq![hex_digit_char(n)]);
    } else {
        lemma_hex_digits_shape(n / 16);
        lemma_hex_digit_char_val(n % 16);
        let prev = hex_digits(n / 16);
        let s = prev.push(hex_digit_char(n % 16));
        assert forall|i: int| 0 <= i < s.len() implies is_hex_digit(#[trigger] s[i]) by {
            if i < prev.len() {
                assert(s[i] == prev[i]);
            }
        }
    }
}

/// Parsing the minimal rendering gives the number back.
pub proof fn lemma_hex_roundtrip(n: nat)
    ensures
        hex_val(hex_digits(n)) == n,
    decreases n,
{
    if n < 16 {
        lemma_hex_digit_char_val(n);
        let s = hex_digits(n);
        assert(s =~= seq![hex_digit_char(n)]);
        assert(s.drop_last() =~= Seq::<char>::empty());
        assert(hex_val(Seq::<char>::empty()) == 0);
    } else {
        lemma_hex_roundtrip(n / 16);
        lemma_hex_digit_char_val(n % 16);
        let s = hex_digits(n);
        assert(s =~= hex_digits(n / 16).push(hex_digit_char(n % 16)));
        assert(s.drop_last() =~= hex_digits(n / 16));
        assert(s.last() == hex_digit_char(n % 16));
        assert(hex_val(s) == (n / 16) * 16 + (n % 16));
        assert((n / 16) * 16 + (n % 16) == n);
    }
}

/// The end of the run of hexadecimal digits that starts at `i`, scanning no
/// further than `end`.
pub open spec fn hex_run_end(s: Seq<char>, i: int, end: int) -> int
    decreases end - i,
{
    if i < 0 || end > s.len() {
        i
    } else if i < end && is_hex_digit(s[i]) {
        hex_run_end(s, i + 1, end)
    } else {
        i
    }
}

pub proof fn lemma_hex_run_end(s: Seq<char>, i: int, end: int)
    requires
        0 <= i <= end <= s.len(),
    ensures
        i <= hex_run_end(s, i, end) <= end,
        forall|j: int| i <= j < hex_run_end(s, i, end) ==> is_hex_digit(#[trigger] s[j]),
        hex_run_end(s, i, end) < end ==> !is_hex_digit(s[hex_run_end(s, i, end)]),
    decreases end - i,
{
    if i < end && is_hex_digit(s[i]) {
        lemma_hex_run_end(s, i + 1, end);
    }
}

proof fn lemma_hex_run_inside(s: Seq<char>, start: int, i: int, end: int)
    requires
        0 <= start <= i < end <= s.len(),
        forall|j: int| start <= j < i ==> is_hex_digit(#[trigger] s[j]),
        is_hex_digit(s[i]),
    ensures
        i < hex_run_end(s, start, end),
    decreases i - start,
{
    if start == i {
        lemma_hex_run_end(s, start + 1, end);
    } else {
        lemma_hex_run_inside(s, start + 1, i, end);
    }
}

/// Exec test for a hexadecimal digit.
pub fn char_is_hex(c: char) -> (r: bool)
    ensures
        r == is_hex_digit(c),
{
    ('0' <= c && c <= '9') || ('a' <= c && c <= 'f') || ('A' <= c && c <= 'F')
}

/// Exec hexadecimal digit value.
pub fn char_hex_val(c: char) -> (r: u32)
    requires
        is_hex_digit(c),
    ensures
        r == hex_digit_val(c),
        r < 16,
{
    if '0' <= c && c <= '9' {
        (c as u32) - 48
    } else if 'a' <= c && c <= 'f' {
        (c as u32) - 87
    } else {
        (c as u32) - 55
    }
}

/// Exec rendering of one hexadecimal digit, lowercase.
pub fn char_of_hex(d: u64) -> (c: char)
    requires
        d < 16,
    ensures
        c == hex_digit_char(d as nat),
{
    if d < 10 {
        char_of_digit(d)
    } else if d == 10 { 'a' }
    else if d == 11 { 'b' }
    else if d == 12 { 'c' }
    else if d == 13 { 'd' }
    else if d == 14 { 'e' }
    else { 'f' }
}

/// Appends the minimal lowercase hexadecimal rendering of `n` to `out`.
pub fn push_hex(out: &mut String, n: u64)
    ensures
        final(out)@ == old(out)@ + hex_digits(n as nat),
    decreases n,
{
    if n < 16 {
        push_char(out, char_of_hex(n));
        assert(final(out)@ == old(out)@ + hex_digits(n as nat));
    } else {
        push_hex(out, n / 16);
        push_char(out, char_of_hex(n % 16));
        assert(final(out)@ == old(out)@ + hex_digits((n / 16) as nat).push(
            hex_digit_char((n % 16) as nat),
        ));
        assert(old(out)@ + hex_digits((n / 16) as nat).push(hex_digit_char((n % 16) as nat))
            == old(out)@ + hex_digits(n as nat));
    }
}

/// Reads the run of hexadecimal digits that starts at `start`.  `None` when
/// no such digit stands at `start` or the run is longer than `max_digits`.
pub fn parse_hex_run(s: &str, start: usize, end: usize, max_digits: usize) -> (r: Option<
    (u64, usize),
>)
    requires
        start <= end,
        end <= s@.len(),
        max_digits <= 15,
    ensures
        ({
            let run_end = hex_run_end(s@, start as int, end as int);
            match r {
                Some(p) => {
                    &&& start < p.1
                    &&& p.1 <= end
                    &&& p.1 == run_end
                    &&& p.1 - start <= max_digits
                    &&& all_hex(s@.subrange(start as int, p.1 as int))
                    &&& p.0 == hex_val(s@.subrange(start as int, p.1 as int))
                },
                None => start == run_end || run_end - start > max_digits,
            }
        }),
{
    proof {
        lemma_hex_run_end(s@, start as int, end as int);
    }
    let ghost run_end = hex_run_end(s@, start as int, end as int);
    let mut i: usize = start;
    let mut acc: u64 = 0;
    loop
        invariant
            start <= i <= end,
            end <= s@.len(),
            i <= run_end <= end,
            run_end == hex_run_end(s@, start as int, end as int),
            forall|j: int| start <= j < run_end ==> is_hex_digit(#[trigger] s@[j]),
            run_end < end ==> !is_hex_digit(s@[run_end]),
            acc == hex_val(s@.subrange(start as int, i as int)),
            forall|j: int| start <= j < i ==> is_hex_digit(#[trigger] s@[j]),
            i - start <= max_digits,
            acc < pow16((i - start) as nat),
            max_digits <= 15,
        ensures
            start <= i <= end,
            i == hex_run_end(s@, start as int, end as int) || i - start == max_digits && i < run_end,
            acc == hex_val(s@.subrange(start as int, i as int)),
            i - start <= max_digits,
        decreases end - i,
    {
        if i >= end {
            proof {
                assert(i <= run_end <= end);
            }
            break;
        }
        let c = s.get_char(i);
        if !char_is_hex(c) {
            proof {
                if i < run_end {
                    assert(is_hex_digit(s@[i as int]));
                }
            }
            break;
        }
        proof {
            lemma_hex_run_inside(s@, start as int, i as int, end as int);
        }
        if i - start >= max_digits {
            return None;
        }
        let d = char_hex_val(c) as u64;
        proof {
            lemma_pow16_bound((i - start) as nat);
            assert(acc * 16 + d < pow16((i - start) as nat) * 16) by (nonlinear_arith)
                requires acc < pow16((i - start) as nat) && d < 16;
            assert(acc * 16 + d <= u64::MAX);
            assert(pow16((i + 1 - start) as nat) == pow16((i - start) as nat) * 16);
            assert(s@.subrange(start as int, i + 1).drop_last() =~= s@.subrange(
                start as int,
                i as int,
            ));
            assert(s@.subrange(start as int, i + 1).last() == s@[i as int]);
        }
        acc = acc * 16 + d;
        i = i + 1;
    }
    if i == start {
        None
    } else if i < end && char_is_hex(s.get_char(i)) {
        // The run continues past the digit cap.
        proof {
            lemma_hex_run_inside(s@, start as int, i as int, end as int);
        }
        None
    } else {
        proof {
            if i < run_end {
                assert(is_hex_digit(s@[i as int]));
            }
        }
        Some((acc, i))
    }
}

pub open spec fn pow16(k: nat) -> nat
    decreases k,
{
    if k == 0 { 1 } else { pow16((k - 1) as nat) * 16 }
}

proof fn lemma_pow16_bound(k: nat)
    requires
        k <= 15,
    ensures
        pow16(k) * 16 <= 0x10000000000000000,
{
    reveal_with_fuel(pow16, 17);
    assert(pow16(15) == 0x1000000000000000);
    lemma_pow16_mono(k, 15);
    assert(pow16(k) * 16 <= pow16(15) * 16) by (nonlinear_arith)
        requires pow16(k) <= pow16(15);
}

proof fn lemma_pow16_mono(a: nat, b: nat)
    requires
        a <= b,
    ensures
        pow16(a) <= pow16(b),
    decreases b,
{
    if a < b {
        lemma_pow16_mono(a, (b - 1) as nat);
        assert(pow16(b) == pow16((b - 1) as nat) * 16);
        assert(pow16((b - 1) as nat) * 16 >= pow16((b - 1) as nat) * 1) by (nonlinear_arith);
    }
}

/// A hexadecimal string's value is below sixteen to its length.
pub proof fn lemma_hex_val_len_bound(s: Seq<char>)
    requires
        all_hex(s),
    ensures
        hex_val(s) < pow16(s.len()),
    decreases s.len(),
{
    if s.len() == 0 {
        assert(pow16(0) == 1);
    } else {
        let s0 = s.drop_last();
        assert(all_hex(s0));
        lemma_hex_val_len_bound(s0);
        assert(is_hex_digit(s.last()));
        assert(hex_digit_val(s.last()) <= 15);
        assert(hex_val(s) == hex_val(s0) * 16 + hex_digit_val(s.last()));
        assert(pow16(s.len()) == pow16(s0.len()) * 16);
        assert(hex_val(s0) * 16 + 15 < pow16(s0.len()) * 16) by (nonlinear_arith)
            requires hex_val(s0) < pow16(s0.len());
    }
}

/// A run of `k` hexadecimal digits bounded on the right ends at `i + k`.
pub proof fn lemma_hex_run_is(s: Seq<char>, i: int, end: int, k: int)
    requires
        0 <= i,
        k >= 0,
        i + k <= end <= s.len(),
        forall|j: int| i <= j < i + k ==> is_hex_digit(#[trigger] s[j]),
        i + k < end ==> !is_hex_digit(s[i + k]),
    ensures
        hex_run_end(s, i, end) == i + k,
{
    lemma_hex_run_end(s, i, end);
    let e = hex_run_end(s, i, end);
    if e < i + k {
        assert(is_hex_digit(s[e]));
        assert(e < end);
    }
    if e > i + k {
        assert(is_hex_digit(s[i + k]));
    }
}

/// A 16-bit value renders in at most four hexadecimal digits.
pub proof fn lemma_hex_digits_len4(n: nat)
    requires
        n < 0x10000,
    ensures
        hex_digits(n).len() <= 4,
{
    if n < 16 {
        assert(hex_digits(n).len() == 1);
    } else if n < 256 {
        assert(hex_digits(n / 16).len() == 1);
        assert(hex_digits(n).len() == 2);
    } else if n < 4096 {
        assert(hex_digits(n / 16 / 16).len() == 1);
        assert(hex_digits(n / 16).len() == 2);
        assert(hex_digits(n).len() == 3);
    } else {
        assert(hex_digits(n / 16 / 16 / 16).len() == 1);
        assert(hex_digits(n / 16 / 16).len() == 2);
        assert(hex_digits(n / 16).len() == 3);
        assert(hex_digits(n).len() == 4);
    }
}

/// Horizontal whitespace, as trimmed off feed lines and input lines.
pub open spec fn is_space(c: char) -> bool {
    c == ' ' || c == '\t' || c == '\r'
}

pub fn char_is_space(c: char) -> (r: bool)
    ensures
        r == is_space(c),
{
    c == ' ' || c == '\t' || c == '\r'
}

pub open spec fn trim_start_seq(s: Seq<char>) -> Seq<char>
    decreases s.len(),
{
    if s.len() > 0 && is_space(s[0]) {
        trim_start_seq(s.drop_first())
    } else {
        s
    }
}

pub open spec fn trim_end_seq(s: Seq<char>) -> Seq<char>
    decreases s.len(),
{
    if s.len() > 0 && is_space(s.last()) {
        trim_end_seq(s.drop_last())
    } else {
        s
    }
}

/// `s` with leading and trailing horizontal whitespace removed.
pub open spec fn trim_seq(s: Seq<char>) -> Seq<char> {
    trim_end_seq(trim_start_seq(s))
}

/// Narrows `[from, to)` to the bounds of the trimmed text inside it.
pub fn trim_bounds(s: &str, from: usize, to: usize) -> (r: (usize, usize))
    requires
        from <= to,
        to <= s@.len(),
    ensures
        from <= r.0 <= r.1 <= to,
        s@.subrange(r.0 as int, r.1 as int) == trim_seq(s@.subrange(from as int, to as int)),
{
    let mut f: usize = from;
    while f < to && char_is_space(s.get_char(f))
        invariant
            from <= f <= to <= s@.len(),
            trim_start_seq(s@.subrange(from as int, to as int)) == trim_start_seq(
                s@.subrange(f as int, to as int),
            ),
        decreases to - f,
    {
        proof {
            let cur = s@.subrange(f as int, to as int);
            assert(cur.len() > 0 && is_space(cur[0]));
            assert(cur.drop_first() =~= s@.subrange(f + 1, to as int));
        }
        f = f + 1;
    }
    proof {
        let cur = s@.subrange(f as int, to as int);
        if cur.len() > 0 {
            assert(!is_space(cur[0]));
        }
        assert(trim_start_seq(cur) == cur);
    }
    let mut t: usize = to;
    while t > f && char_is_space(s.get_char(t - 1))
        invariant
            from <= f <= t <= to <= s@.len(),
            trim_end_seq(s@.subrange(f as int, to as int)) == trim_end_seq(
                s@.subrange(f as int, t as int),
            ),
        decreases t,
    {
        proof {
            let cur = s@.subrange(f as int, t as int);
            assert(cur.len() > 0 && is_space(cur.last()));
            assert(cur.drop_last() =~= s@.subrange(f as int, t - 1));
        }
        t = t - 1;
    }
    proof {
        let cur = s@.subrange(f as int, t as int);
        if cur.len() > 0 {
            assert(!is_space(cur.last()));
        }
        assert(trim_end_seq(cur) == cur);
        assert(trim_seq(s@.subrange(from as int, to as int)) == s@.subrange(f as int, t as int));
    }
    (f, t)
}

} // verus!
