//! The library's JSON dialect: the feed format "array of address strings",
//! and the ban-list file.
//!
//! Both are handled by hand so that every byte written and accepted is
//! pinned down.  The array reader is a character machine with an exact
//! specification; the ban file is written in one canonical pretty shape.

use vstd::prelude::*;
use vstd::string::StrSliceExecFns;
use vstd::string::StringExecFns;
use crate::ban::BanEntry;
use crate::ban::BanManager;
use crate::ip::ip_text;
use crate::ip::format_ip;
use crate::ip::parse_ip;
use crate::ip::spec_parse_ip;
use crate::text::dec_digits;
use crate::text::parse_dec_run;
use crate::text::push_char;
use crate::text::push_dec;

verus! {

/// JSON whitespace.
pub open spec fn is_jws(c: char) -> bool {
    c == ' ' || c == '\t' || c == '\n' || c == '\r'
}

/// The machine reading `["a", "b", ...]`.  `mode` 0: before the bracket;
/// 1: before an item or the closing bracket; 2: inside a string; 3: after
/// an item; 4: done; 5: stuck.  Strings that do not read as addresses are
/// skipped, as a feed may carry other text.
pub open spec fn jarr_step(mode: int, cur: Seq<char>, acc: Seq<u128>, c: char) -> (
    int,
    Seq<char>,
    Seq<u128>,
) {
    if mode == 0 {
        if is_jws(c) {
            (0, cur, acc)
        } else if c == '[' {
            (1, cur, acc)
        } else {
            (5, cur, acc)
        }
    } else if mode == 1 {
        if is_jws(c) {
            (1, cur, acc)
        } else if c == '"' {
            (2, Seq::empty(), acc)
        } else if c == ']' {
            (4, cur, acc)
        } else {
            (5, cur, acc)
        }
    } else if mode == 2 {
        if c == '"' {
            (
                3,
                cur,
                match spec_parse_ip(cur, 0, cur.len() as int) {
                    Some(ip) => acc.push(ip),
                    None => acc,
                },
            )
        } else if c == '\\' {
            (5, cur, acc)
        } else {
            (2, cur.push(c), acc)
        }
    } else if mode == 3 {
        if is_jws(c) {
            (3, cur, acc)
        } else if c == ',' {
            (1, cur, acc)
        } else if c == ']' {
            (4, cur, acc)
        } else {
            (5, cur, acc)
        }
    } else if mode == 4 {
        if is_jws(c) {
            (4, cur, acc)
        } else {
            (5, cur, acc)
        }
    } else {
        (5, cur, acc)
    }
}

/// Runs the machine over the whole text.
pub open spec fn jarr_run(s: Seq<char>, mode: int, cur: Seq<char>, acc: Seq<u128>) -> (
    int,
    Seq<char>,
    Seq<u128>,
)
    decreases s.len(),
{
    if s.len() == 0 {
        (mode, cur, acc)
    } else {
        let st = jarr_step(mode, cur, acc, s[0]);
        jarr_run(s.drop_first(), st.0, st.1, st.2)
    }
}

/// The addresses of a JSON array of strings; anything malformed gives
/// nothing.
pub open spec fn spec_json_ips(s: Seq<char>) -> Seq<u128> {
    let end = jarr_run(s, 0, Seq::empty(), Seq::empty());
    if end.0 == 4 {
        end.2
    } else {
        Seq::empty()
    }
}

/// Reads a JSON array of address strings; the result agrees with the
/// machine exactly.
pub fn parse_json_ip_array(s: &str) -> (r: Vec<u128>)
    ensures
        r@ == spec_json_ips(s@),
{
    let n = s.unicode_len();
    let mut mode: u8 = 0;
    let mut cur = String::new();
    let mut acc: Vec<u128> = Vec::new();
    let mut i: usize = 0;
    proof {
        assert(s@.subrange(0, n as int) =~= s@);
    }
    while i < n
        invariant
            n == s@.len(),
            i <= n,
            mode <= 5,
            jarr_run(s@, 0, Seq::empty(), Seq::empty()) == jarr_run(
                s@.subrange(i as int, n as int),
                mode as int,
                cur@,
                acc@,
            ),
        decreases n - i,
    {
        let c = s.get_char(i);
        let ghost rest = s@.subrange(i as int, n as int);
        proof {
            assert(rest[0] == s@[i as int]);
            assert(rest.drop_first() =~= s@.subrange(i + 1, n as int));
        }
        if mode == 0 {
            if char_is_jws(c) {
            } else if c == '[' {
                mode = 1;
            } else {
                mode = 5;
            }
        } else if mode == 1 {
            if char_is_jws(c) {
            } else if c == '"' {
                mode = 2;
                crate::text::clear_string(&mut cur);
            } else if c == ']' {
                mode = 4;
            } else {
                mode = 5;
            }
        } else if mode == 2 {
            if c == '"' {
                mode = 3;
                let m = cur.as_str().unicode_len();
                match parse_ip(cur.as_str(), 0, m) {
                    Some(ip) => {
                        acc.push(ip);
                    },
                    None => {},
                }
            } else if c == '\\' {
                mode = 5;
            } else {
                push_char(&mut cur, c);
            }
        } else if mode == 3 {
            if char_is_jws(c) {
            } else if c == ',' {
                mode = 1;
            } else if c == ']' {
                mode = 4;
            } else {
                mode = 5;
            }
        } else if mode == 4 {
            if char_is_jws(c) {
            } else {
                mode = 5;
            }
        }
        i = i + 1;
    }
    proof {
        assert(s@.subrange(n as int, n as int) =~= Seq::<char>::empty());
    }
    if mode == 4 {
        acc
    } else {
        Vec::new()
    }
}

fn char_is_jws(c: char) -> (r: bool)
    ensures
        r == is_jws(c),
{
    c == ' ' || c == '\t' || c == '\n' || c == '\r'
}

/// The serialized shape of one entry's value object.
pub open spec fn ser_entry_body(e: BanEntry) -> Seq<char> {
    "{\"reason\": \""@ + json_escape(e.reason@) + "\", \"banned_at_ms\": "@ + dec_digits(
        e.banned_at_ms as nat,
    ) + (match e.expires_at_ms {
        None => Seq::<char>::empty(),
        Some(x) => ", \"expires_at_ms\": "@ + dec_digits(x as nat),
    }) + "}"@
}

/// The serialized shape of one keyed entry, on its own indented line.
pub open spec fn ser_entry(e: BanEntry) -> Seq<char> {
    "\n    \""@ + ip_text(e.ip) + "\": "@ + ser_entry_body(e)
}

/// The serialized entry lines, comma-separated.
pub open spec fn ser_entries(s: Seq<BanEntry>) -> Seq<char>
    decreases s.len(),
{
    if s.len() == 0 {
        Seq::empty()
    } else if s.len() == 1 {
        ser_entry(s[0])
    } else {
        ser_entries(s.drop_last()) + ","@ + ser_entry(s.last())
    }
}

/// The whole ban file.
pub open spec fn ser_store(s: Seq<BanEntry>) -> Seq<char> {
    "{\n  \"bans\": {"@ + ser_entries(s) + "\n  }\n}\n"@
}

/// Escaping for string values: quote and backslash are prefixed, control
/// characters become `\u00` and two hexadecimal digits, everything else
/// stands as itself.
pub open spec fn esc_char(c: char) -> Seq<char> {
    if c == '"' {
        seq!['\\', '"']
    } else if c == '\\' {
        seq!['\\', '\\']
    } else if (c as u32) < 32 {
        seq!['\\', 'u', '0', '0', crate::text::hex_digit_char(((c as u32) / 16) as nat),
            crate::text::hex_digit_char(((c as u32) % 16) as nat)]
    } else {
        seq![c]
    }
}

pub open spec fn json_escape(s: Seq<char>) -> Seq<char>
    decreases s.len(),
{
    if s.len() == 0 {
        Seq::empty()
    } else {
        esc_char(s[0]) + json_escape(s.drop_first())
    }
}

/// `esc` reads back as `plain` under the escapes [`esc_char`] writes: a
/// backslash pair for quote and backslash, `\u00` and two hexadecimal
/// digits for a control character, every other character as itself.
pub open spec fn unescapes_to(esc: Seq<char>, plain: Seq<char>) -> bool
    decreases esc.len(),
{
    if esc.len() == 0 {
        plain.len() == 0
    } else if esc[0] == '\\' {
        if esc.len() >= 2 && (esc[1] == '"' || esc[1] == '\\') {
            plain.len() >= 1 && plain[0] == esc[1] && unescapes_to(
                esc.subrange(2, esc.len() as int),
                plain.drop_first(),
            )
        } else if esc.len() >= 6 && esc[1] == 'u' && esc[2] == '0' && esc[3] == '0'
            && crate::text::is_hex_digit(esc[4]) && crate::text::is_hex_digit(esc[5]) {
            plain.len() >= 1 && (plain[0] as u32) == 16 * crate::text::hex_digit_val(esc[4])
                + crate::text::hex_digit_val(esc[5]) && unescapes_to(
                esc.subrange(6, esc.len() as int),
                plain.drop_first(),
            )
        } else {
            false
        }
    } else {
        plain.len() >= 1 && plain[0] == esc[0] && unescapes_to(
            esc.subrange(1, esc.len() as int),
            plain.drop_first(),
        )
    }
}

/// The escaping round trip: what [`json_escape`] writes reads back as the
/// text it was given.
pub proof fn lemma_escape_roundtrip(s: Seq<char>)
    ensures
        unescapes_to(json_escape(s), s),
    decreases s.len(),
{
    if s.len() == 0 {
    } else {
        lemma_escape_roundtrip(s.drop_first());
        let c = s[0];
        let e = esc_char(c);
        let rest = json_escape(s.drop_first());
        assert(json_escape(s) == e + rest);
        if c == '"' || c == '\\' {
            assert((e + rest).len() >= 2);
            assert((e + rest)[0] == '\\' && (e + rest)[1] == c);
            assert((e + rest).subrange(2, (e + rest).len() as int) =~= rest);
            assert(unescapes_to(e + rest, s));
        } else if (c as u32) < 32 {
            assert(((c as u32) / 16) < 16);
            assert(((c as u32) % 16) < 16);
            crate::text::lemma_hex_digit_char_val((((c as u32)) / 16) as nat);
            crate::text::lemma_hex_digit_char_val((((c as u32)) % 16) as nat);
            assert((e + rest).len() >= 6);
            assert((e + rest)[0] == '\\' && (e + rest)[1] == 'u' && (e + rest)[2] == '0' && (e
                + rest)[3] == '0');
            assert((e + rest)[4] == crate::text::hex_digit_char((((c as u32)) / 16) as nat));
            assert((e + rest)[5] == crate::text::hex_digit_char((((c as u32)) % 16) as nat));
            assert(16 * (((c as u32)) / 16) + (((c as u32)) % 16) == (c as u32));
            assert((e + rest).subrange(6, (e + rest).len() as int) =~= rest);
            assert('u' as int == 117 && '"' as int == 34 && '\\' as int == 92);
            assert(unescapes_to(e + rest, s));
        } else {
            assert((e + rest)[0] == c);
            assert((e + rest)[0] != '\\') by {
                assert('\\' as int == 92);
            }
            assert((e + rest).subrange(1, (e + rest).len() as int) =~= rest);
            assert(unescapes_to(e + rest, s));
        }
    }
}

/// Appends the escaped form of `s` to `out`.
fn push_escaped(out: &mut String, s: &str)
    ensures
        final(out)@ == old(out)@ + json_escape(s@),
{
    let n = s.unicode_len();
    let mut i: usize = 0;
    proof {
        assert(old(out)@ + json_escape(s@.subrange(0, 0)) =~= old(out)@);
        assert(s@.subrange(0, n as int) =~= s@);
    }
    while i < n
        invariant
            n == s@.len(),
            i <= n,
            out@ == old(out)@ + json_escape(s@.subrange(0, i as int)),
        decreases n - i,
    {
        let c = s.get_char(i);
        let ghost pre = s@.subrange(0, i as int);
        if c == '"' {
            push_char(out, '\\');
            push_char(out, '"');
        } else if c == '\\' {
            push_char(out, '\\');
            push_char(out, '\\');
        } else if (c as u32) < 32 {
            push_char(out, '\\');
            push_char(out, 'u');
            push_char(out, '0');
            push_char(out, '0');
            push_char(out, crate::text::char_of_hex(((c as u32) / 16) as u64));
            push_char(out, crate::text::char_of_hex(((c as u32) % 16) as u64));
        } else {
            push_char(out, c);
        }
        proof {
            lemma_escape_snoc(s@, i as int);
            assert(out@ =~= old(out)@ + json_escape(s@.subrange(0, i + 1)));
        }
        i = i + 1;
    }
}

/// Escaping one more character appends its escape.
proof fn lemma_escape_snoc(s: Seq<char>, i: int)
    requires
        0 <= i < s.len(),
    ensures
        json_escape(s.subrange(0, i + 1)) =~= json_escape(s.subrange(0, i)) + esc_char(s[i]),
    decreases i,
{
    if i == 0 {
        assert(s.subrange(0, 1).drop_first() =~= Seq::<char>::empty());
        assert(s.subrange(0, 1)[0] == s[0]);
        assert(json_escape(s.subrange(0, 1)) == esc_char(s[0]) + json_escape(
            Seq::<char>::empty(),
        ));
        assert(esc_char(s[0]) + Seq::<char>::empty() =~= esc_char(s[0]));
        assert(json_escape(s.subrange(0, 0)) + esc_char(s[0]) =~= esc_char(s[0]));
    } else {
        // Both prefixes share the head; recurse on the tail.
        let a = s.subrange(0, i + 1);
        let b = s.subrange(0, i);
        assert(a[0] == s[0] && b[0] == s[0]);
        let t = s.drop_first();
        lemma_escape_snoc(t, i - 1);
        assert(a.drop_first() =~= t.subrange(0, i));
        assert(b.drop_first() =~= t.subrange(0, i - 1));
        assert(t[i - 1] == s[i]);
        assert(json_escape(a) == esc_char(s[0]) + json_escape(t.subrange(0, i)));
        assert(json_escape(b) == esc_char(s[0]) + json_escape(t.subrange(0, i - 1)));
        assert(esc_char(s[0]) + (json_escape(t.subrange(0, i - 1)) + esc_char(s[i])) =~= (esc_char(
            s[0],
        ) + json_escape(t.subrange(0, i - 1))) + esc_char(s[i]));
    }
}

/// Writes the ban list in its canonical pretty shape.
pub fn to_json(m: &BanManager) -> (r: String)
    requires
        m.wf(),
    ensures
        r@ == ser_store(m@),
{
    let entries = m.get_all_entries();
    let mut out = String::from_str("{\n  \"bans\": {");
    let mut i: usize = 0;
    proof {
        assert(entries@.subrange(0, 0) =~= Seq::<BanEntry>::empty());
        assert(out@ + ser_entries(entries@.subrange(0, 0)) =~= out@);
    }
    let ghost head = out@;
    while i < entries.len()
        invariant
            entries@ == m@,
            i <= entries@.len(),
            head == "{\n  \"bans\": {"@,
            out@ == head + ser_entries(entries@.subrange(0, i as int)),
        decreases entries@.len() - i,
    {
        if i > 0 {
            out.append(",");
        }
        push_entry(&mut out, &entries[i]);
        proof {
            reveal_strlit(",");
            assert(","@ =~= seq![',']);
            assert(entries@.subrange(0, i + 1).drop_last() =~= entries@.subrange(0, i as int));
            assert(entries@.subrange(0, i + 1).last() == entries@[i as int]);
            if i == 0 {
                assert(entries@.subrange(0, 1).len() == 1);
                assert(ser_entries(entries@.subrange(0, 1)) == ser_entry(entries@[0]));
                assert(out@ =~= head + ser_entries(entries@.subrange(0, i + 1)));
            } else {
                assert(ser_entries(entries@.subrange(0, i + 1)) == ser_entries(
                    entries@.subrange(0, i as int),
                ) + ","@ + ser_entry(entries@[i as int]));
                assert(out@ =~= head + ser_entries(entries@.subrange(0, i + 1)));
            }
        }
        i = i + 1;
    }
    out.append("\n  }\n}\n");
    proof {
        assert(entries@.subrange(0, entries@.len() as int) =~= entries@);
        assert(out@ =~= ser_store(m@));
    }
    out
}

/// Appends one serialized entry line.
fn push_entry(out: &mut String, e: &BanEntry)
    ensures
        final(out)@ == old(out)@ + ser_entry(*e),
{
    out.append("\n    \"");
    let iptxt = format_ip(e.ip);
    out.append(iptxt.as_str());
    out.append("\": ");
    out.append("{\"reason\": \"");
    push_escaped(out, e.reason.as_str());
    out.append("\", \"banned_at_ms\": ");
    push_dec(out, e.banned_at_ms);
    match e.expires_at_ms {
        None => {},
        Some(x) => {
            out.append(", \"expires_at_ms\": ");
            push_dec(out, x);
        },
    }
    out.append("}");
    proof {
        assert(out@ =~= old(out)@ + ser_entry(*e));
    }
}

/// Reads a ban file written by [`to_json`] (whitespace between tokens is
/// free).  A well-formed list comes back; text that does not read as a ban
/// file is refused, and the canonical rendering of the empty list is
/// accepted.
pub fn from_json(s: &str) -> (r: Result<BanManager, String>)
    ensures
        r matches Ok(m) ==> m.wf() && entries_from_text(s@, m@),
        s@ == ser_store(Seq::<BanEntry>::empty()) ==> (r matches Ok(m) && m@.len() == 0),
{
    proof {
        lemma_empty_store_chars(s@);
    }
    let n = s.unicode_len();
    let mut m = BanManager::new_empty();
    let mut i: usize = skip_jws(s, 0, n);
    if !(i < n && s.get_char(i) == '{') {
        return Err(String::from_str("a ban file opens with an object"));
    }
    i = skip_jws(s, i + 1, n);
    i = match expect_key(s, i, n, "bans") {
        None => {
            proof {
                if s@ == ser_store(Seq::<BanEntry>::empty()) {
                    reveal_strlit("bans");
                    assert(s@.subrange(5, 9) =~= "bans"@);
                    assert(spec_key_at(s@, 4, 20, "bans"@) == Some(11int));
                }
            }
            return Err(String::from_str("the object holds one key, the ban table"));
        },
        Some(j) => j,
    };
    i = skip_jws(s, i, n);
    if !(i < n && s.get_char(i) == '{') {
        proof {
            if s@ == ser_store(Seq::<BanEntry>::empty()) {
                reveal_strlit("bans");
                assert(s@.subrange(5, 9) =~= "bans"@);
                assert(spec_key_at(s@, 4, 20, "bans"@) == Some(11int));
            }
        }
        return Err(String::from_str("the ban table is an object"));
    }
    i = skip_jws(s, i + 1, n);
    if i < n && s.get_char(i) == '}' {
        // An empty table.
        i = i + 1;
    } else {
        proof {
            if s@ == ser_store(Seq::<BanEntry>::empty()) {
                reveal_strlit("bans");
                assert(s@.subrange(5, 9) =~= "bans"@);
                assert(spec_key_at(s@, 4, 20, "bans"@) == Some(11int));
                assert(i == 16 && s@[16] == '}');
            }
        }
        loop
            invariant
                n == s@.len(),
                i <= n,
                m.wf(),
                entries_from_text(s@, m@),
                s@ != ser_store(Seq::<BanEntry>::empty()),
            decreases n - i,
        {
            let ghost i_at = i as int;
            let (entry, j) = match read_entry(s, i, n) {
                None => {
                    return Err(String::from_str("a ban entry could not be read"));
                },
                Some(p) => p,
            };
            let ghost gentry = entry;
            let ghost oldm = m@;
            proof {
                // The fresh entry is faithful to the whole text.
                let a = choose|a: int|
                    i_at <= a <= j && #[trigger] entry_from_text(s@, a, j as int, gentry);
                lemma_entry_region_widen(s@, a, j as int, n as int, gentry);
                assert(entry_from_some_region(s@, 0, s@.len() as int, gentry));
            }
            m.put_loaded(entry);
            proof {
                assert forall|q: int|
                    0 <= q < m@.len() implies entry_from_some_region(
                    s@,
                    0,
                    s@.len() as int,
                    #[trigger] m@[q],
                ) by {
                    if m@[q] == gentry {
                    } else {
                        // Whether replaced in place or appended, every other
                        // slot keeps the entry it held.
                        if exists|k: int|
                            0 <= k < oldm.len() && (#[trigger] oldm[k]).ip == gentry.ip && m@
                                =~= oldm.update(k, gentry) {
                            let k = choose|k: int|
                                0 <= k < oldm.len() && (#[trigger] oldm[k]).ip == gentry.ip && m@
                                    =~= oldm.update(k, gentry);
                            assert(m@[q] == oldm[q]);
                        } else {
                            assert(m@ =~= oldm.push(gentry));
                            assert(m@[q] == oldm[q]);
                        }
                    }
                }
            }
            i = skip_jws(s, j, n);
            if i < n && s.get_char(i) == ',' {
                i = skip_jws(s, i + 1, n);
            } else if i < n && s.get_char(i) == '}' {
                i = i + 1;
                break;
            } else {
                return Err(String::from_str("a ban entry ends with a comma or the brace"));
            }
        }
    }
    i = skip_jws(s, i, n);
    if !(i < n && s.get_char(i) == '}') {
        return Err(String::from_str("the ban file closes with a brace"));
    }
    let j = skip_jws(s, i + 1, n);
    if j != n {
        return Err(String::from_str("text follows the ban file"));
    }
    Ok(m)
}

/// The characters of the canonical empty ban file, spelled out so that the
/// loader's path over it can be followed step by step.
proof fn lemma_empty_store_chars(s: Seq<char>)
    ensures
        s == ser_store(Seq::<BanEntry>::empty()) ==> {
            &&& s.len() == 20
            &&& s[0] == '{' && s[1] == '\n' && s[2] == ' ' && s[3] == ' ' && s[4] == '"'
            &&& s[5] == 'b' && s[6] == 'a' && s[7] == 'n' && s[8] == 's' && s[9] == '"'
            &&& s[10] == ':' && s[11] == ' ' && s[12] == '{'
            &&& s[13] == '\n' && s[14] == ' ' && s[15] == ' ' && s[16] == '}'
            &&& s[17] == '\n' && s[18] == '}' && s[19] == '\n'
            &&& jws_run_end(s, 0, 20) == 0
            &&& jws_run_end(s, 1, 20) == 4
            &&& jws_run_end(s, 10, 20) == 10
            &&& jws_run_end(s, 11, 20) == 12
            &&& jws_run_end(s, 13, 20) == 16
            &&& jws_run_end(s, 17, 20) == 18
            &&& jws_run_end(s, 19, 20) == 20
        },
{
    if s == ser_store(Seq::<BanEntry>::empty()) {
        reveal_strlit("{\n  \"bans\": {");
        reveal_strlit("\n  }\n}\n");
        assert(ser_entries(Seq::<BanEntry>::empty()) == Seq::<char>::empty());
        assert(s =~= "{\n  \"bans\": {"@ + "\n  }\n}\n"@);
        reveal_with_fuel(jws_run_end, 9);
        assert(jws_run_end(s, 1, 20) == 4);
        assert(jws_run_end(s, 11, 20) == 12);
        assert(jws_run_end(s, 13, 20) == 16);
        assert(jws_run_end(s, 17, 20) == 18);
        assert(jws_run_end(s, 19, 20) == 20);
    }
}

/// The end of the run of JSON whitespace that starts at `i`.
pub open spec fn jws_run_end(s: Seq<char>, i: int, end: int) -> int
    decreases end - i,
{
    if i < 0 || end > s.len() {
        i
    } else if i < end && is_jws(s[i]) {
        jws_run_end(s, i + 1, end)
    } else {
        i
    }
}

/// The first position at or past `i` that holds no JSON whitespace.
fn skip_jws(s: &str, i: usize, n: usize) -> (r: usize)
    requires
        i <= n,
        n == s@.len(),
    ensures
        i <= r <= n,
        r == jws_run_end(s@, i as int, n as int),
        r < n ==> !is_jws(s@[r as int]),
{
    let mut k: usize = i;
    while k < n && char_is_jws_at(s, k)
        invariant
            i <= k <= n,
            n == s@.len(),
            jws_run_end(s@, i as int, n as int) == jws_run_end(s@, k as int, n as int),
        decreases n - k,
    {
        k = k + 1;
    }
    k
}

fn char_is_jws_at(s: &str, k: usize) -> (r: bool)
    requires
        k < s@.len(),
    ensures
        r == is_jws(s@[k as int]),
{
    char_is_jws(s.get_char(k))
}

/// The grammar of `"key"`, optional whitespace, and a colon.
pub open spec fn spec_key_at(s: Seq<char>, i: int, n: int, key: Seq<char>) -> Option<int> {
    let q = i + 1 + key.len();
    if i < n && s[i] == '"' && i + 1 + key.len() < n && s.subrange(i + 1, q) == key && s[q] == '"'
        && jws_run_end(s, q + 1, n) < n && s[jws_run_end(s, q + 1, n)] == ':' {
        Some(jws_run_end(s, q + 1, n) + 1)
    } else {
        None
    }
}

/// Expects `"key"` followed by optional whitespace and a colon; gives the
/// position after the colon.  The result agrees with the grammar exactly.
fn expect_key(s: &str, i: usize, n: usize, key: &str) -> (r: Option<usize>)
    requires
        i <= n,
        n == s@.len(),
    ensures
        match r {
            Some(j) => i < j <= n && spec_key_at(s@, i as int, n as int, key@) == Some(j as int),
            None => spec_key_at(s@, i as int, n as int, key@) is None,
        },
{
    if !(i < n && s.get_char(i) == '"') {
        return None;
    }
    let m = key.unicode_len();
    let mut k: usize = 0;
    while k < m && i + 1 + k < n && s.get_char(i + 1 + k) == key.get_char(k)
        invariant
            n == s@.len(),
            m == key@.len(),
            i < n,
            k <= m,
            i + 1 + k <= n,
            forall|p: int| 0 <= p < k ==> s@[i + 1 + p] == key@[p],
        decreases m - k,
    {
        k = k + 1;
    }
    if k != m {
        proof {
            // The key match broke off: either the text ended or a character
            // differed, so the grammar refuses.
            if i + 1 + (key@.len() as int) < n && s@.subrange(
                i + 1,
                i + 1 + (key@.len() as int),
            ) == key@ {
                assert(s@.subrange(i + 1, i + 1 + (key@.len() as int))[k as int] == key@[k as int]);
                assert(s@[i + 1 + k] == key@[k as int]);
            }
        }
        return None;
    }
    let q = i + 1 + m;
    proof {
        if q < n && s@.subrange(i + 1, q as int) == key@ {
        }
        assert(s@.subrange(i + 1, q as int) =~= key@);
    }
    if !(q < n && s.get_char(q) == '"') {
        return None;
    }
    let mut j = skip_jws(s, q + 1, n);
    if !(j < n && s.get_char(j) == ':') {
        return None;
    }
    j = j + 1;
    Some(j)
}

/// An entry is faithful to the text region it was read from: its address
/// parses from the key, its reason unescapes from the quoted value, and
/// its instants are the values of digit runs, all inside `[a, b)`.
pub open spec fn entry_from_text(s: Seq<char>, a: int, b: int, e: BanEntry) -> bool {
    exists|q: int, c1: int, c2: int, d1: int, d2: int|
        #![trigger spec_parse_ip(s, a, q), s.subrange(c1, c2), s.subrange(d1, d2)]
        {
            &&& a <= q <= c1 <= c2 <= d1 <= d2 <= b
            &&& spec_parse_ip(s, a, q) == Some(e.ip)
            &&& unescapes_to(s.subrange(c1, c2), e.reason@)
            &&& d1 < d2
            &&& crate::text::all_digits(s.subrange(d1, d2))
            &&& crate::text::dec_val(s.subrange(d1, d2)) == e.banned_at_ms
            &&& (match e.expires_at_ms {
                None => true,
                Some(x) => exists|x1: int, x2: int|
                    {
                        &&& d2 <= x1 < x2 <= b
                        &&& crate::text::all_digits(#[trigger] s.subrange(x1, x2))
                        &&& crate::text::dec_val(s.subrange(x1, x2)) == x
                    },
            })
        }
}

/// An entry is faithful to some region between `lo` and `hi`.
pub open spec fn entry_from_some_region(s: Seq<char>, lo: int, hi: int, e: BanEntry) -> bool {
    exists|a: int| lo <= a <= hi && #[trigger] entry_from_text(s, a, hi, e)
}

/// A faithful region stays faithful under a wider right bound.
proof fn lemma_entry_region_widen(s: Seq<char>, a: int, b: int, b2: int, e: BanEntry)
    requires
        entry_from_text(s, a, b, e),
        b <= b2,
    ensures
        entry_from_text(s, a, b2, e),
{
    let (q, c1, c2, d1, d2) = choose|q: int, c1: int, c2: int, d1: int, d2: int|
        #![trigger spec_parse_ip(s, a, q), s.subrange(c1, c2), s.subrange(d1, d2)]
        {
            &&& a <= q <= c1 <= c2 <= d1 <= d2 <= b
            &&& spec_parse_ip(s, a, q) == Some(e.ip)
            &&& unescapes_to(s.subrange(c1, c2), e.reason@)
            &&& d1 < d2
            &&& crate::text::all_digits(s.subrange(d1, d2))
            &&& crate::text::dec_val(s.subrange(d1, d2)) == e.banned_at_ms
            &&& (match e.expires_at_ms {
                None => true,
                Some(x) => exists|x1: int, x2: int|
                    {
                        &&& d2 <= x1 < x2 <= b
                        &&& crate::text::all_digits(#[trigger] s.subrange(x1, x2))
                        &&& crate::text::dec_val(s.subrange(x1, x2)) == x
                    },
            })
        };
    if e.expires_at_ms is Some {
        let x = e.expires_at_ms->0;
        let (x1, x2) = choose|x1: int, x2: int|
            {
                &&& d2 <= x1 < x2 <= b
                &&& crate::text::all_digits(#[trigger] s.subrange(x1, x2))
                &&& crate::text::dec_val(s.subrange(x1, x2)) == x
            };
        assert(d2 <= x1 < x2 <= b2);
        assert(crate::text::all_digits(s.subrange(x1, x2)));
    }
    assert(entry_from_text(s, a, b2, e));
}

/// Every entry of a loaded list is faithful to some region of the text.
pub open spec fn entries_from_text(s: Seq<char>, m: Seq<BanEntry>) -> bool {
    forall|q: int|
        0 <= q < m.len() ==> entry_from_some_region(s, 0, s.len() as int, #[trigger] m[q])
}

/// Reads one `"ip": { ... }` entry starting at or after whitespace.  What
/// comes back is faithful to the text it was read from.
fn read_entry(s: &str, i0: usize, n: usize) -> (r: Option<(BanEntry, usize)>)
    requires
        i0 <= n,
        n == s@.len(),
    ensures
        r matches Some(p) ==> i0 < p.1 <= n,
        r matches Some(p) ==> entry_from_some_region(s@, i0 as int, p.1 as int, p.0),
{
    let mut i = skip_jws(s, i0, n);
    if !(i < n && s.get_char(i) == '"') {
        return None;
    }
    // The address text runs to the closing quote.
    let start = i + 1;
    let q = crate::ip::find_char(s, start, n, '"');
    if q >= n {
        return None;
    }
    let ghost a_q = q as int;
    let ghost mut exp_run: (int, int) = (0int, 0int);
    let ip = match parse_ip(s, start, q) {
        None => {
            return None;
        },
        Some(ip) => ip,
    };
    i = skip_jws(s, q + 1, n);
    if !(i < n && s.get_char(i) == ':') {
        return None;
    }
    i = skip_jws(s, i + 1, n);
    if !(i < n && s.get_char(i) == '{') {
        return None;
    }
    i = skip_jws(s, i + 1, n);
    i = match expect_key(s, i, n, "reason") {
        None => {
            return None;
        },
        Some(j) => j,
    };
    i = skip_jws(s, i, n);
    let ghost rs_at = i as int;
    let (reason, after) = match read_string(s, i, n) {
        None => {
            return None;
        },
        Some(p) => p,
    };
    i = skip_jws(s, after, n);
    if !(i < n && s.get_char(i) == ',') {
        return None;
    }
    i = skip_jws(s, i + 1, n);
    i = match expect_key(s, i, n, "banned_at_ms") {
        None => {
            return None;
        },
        Some(j) => j,
    };
    i = skip_jws(s, i, n);
    let ghost ba_at = i as int;
    let (banned_at, after2) = match parse_dec_run(s, i, n) {
        None => {
            return None;
        },
        Some(p) => p,
    };
    i = skip_jws(s, after2, n);
    let mut expires: Option<u64> = None;
    if i < n && s.get_char(i) == ',' {
        i = skip_jws(s, i + 1, n);
        i = match expect_key(s, i, n, "expires_at_ms") {
            None => {
                return None;
            },
            Some(j) => j,
        };
        i = skip_jws(s, i, n);
        let ghost ex_at = i as int;
        let (x, after3) = match parse_dec_run(s, i, n) {
            None => {
                return None;
            },
            Some(p) => p,
        };
        proof {
            exp_run = (ex_at, after3 as int);
        }
        expires = Some(x);
        i = skip_jws(s, after3, n);
    }
    if !(i < n && s.get_char(i) == '}') {
        return None;
    }
    let entry = BanEntry { ip, reason, banned_at_ms: banned_at, expires_at_ms: expires };
    let ret = (entry, i + 1);
    proof {
        let b = i + 1;
        assert(entry_from_text(s@, start as int, b as int, ret.0)) by {
            assert(a_q <= rs_at + 1 <= after - 1 <= ba_at <= after2 <= b) by {
                assert(rs_at + 1 <= after - 1);
            }
            assert(spec_parse_ip(s@, start as int, a_q) == Some(ret.0.ip));
            assert(unescapes_to(s@.subrange(rs_at + 1, after - 1), ret.0.reason@));
            assert(crate::text::dec_val(s@.subrange(ba_at, after2 as int))
                == ret.0.banned_at_ms);
            if ret.0.expires_at_ms is Some {
                assert(crate::text::all_digits(s@.subrange(exp_run.0, exp_run.1)));
            }
        }
        assert(entry_from_some_region(s@, i0 as int, ret.1 as int, ret.0)) by {
            assert(i0 <= start as int <= ret.1);
            assert(entry_from_text(s@, start as int, ret.1 as int, ret.0));
        }
    }
    Some(ret)
}

/// A plain character extends an unescaping on both sides.
proof fn lemma_unescape_snoc_plain(a: Seq<char>, b: Seq<char>, c: char)
    requires
        unescapes_to(a, b),
        c != '\\',
    ensures
        unescapes_to(a.push(c), b.push(c)),
    decreases a.len(),
{
    let a2 = a.push(c);
    if a.len() == 0 {
        assert(b.len() == 0);
        assert(a2[0] == c);
        assert(a2.subrange(1, 1) =~= Seq::<char>::empty());
        assert(b.push(c)[0] == c);
        assert(b.push(c).drop_first() =~= Seq::<char>::empty());
        assert(unescapes_to(Seq::<char>::empty(), Seq::<char>::empty()));
        assert(a2.subrange(1, a2.len() as int) =~= Seq::<char>::empty());
        assert(unescapes_to(a2, b.push(c)));
    } else if a[0] == '\\' {
        assert(a2[0] == a[0]);
        if a.len() >= 2 && (a[1] == '"' || a[1] == '\\') {
            assert(a2[1] == a[1]);
            assert(b.len() >= 1 && b[0] == a[1]);
            lemma_unescape_snoc_plain(a.subrange(2, a.len() as int), b.drop_first(), c);
            assert(a2.subrange(2, (a.len() + 1) as int) =~= a.subrange(2, a.len() as int).push(c));
            assert(b.push(c)[0] == b[0]);
            assert(b.push(c).drop_first() =~= b.drop_first().push(c));
            assert(unescapes_to(a2, b.push(c)));
        } else {
            assert(a2[1] == a[1] && a2[2] == a[2] && a2[3] == a[3] && a2[4] == a[4] && a2[5]
                == a[5]);
            lemma_unescape_snoc_plain(a.subrange(6, a.len() as int), b.drop_first(), c);
            assert(a2.subrange(6, (a.len() + 1) as int) =~= a.subrange(6, a.len() as int).push(c));
            assert(b.push(c)[0] == b[0]);
            assert(b.push(c).drop_first() =~= b.drop_first().push(c));
            assert(unescapes_to(a2, b.push(c)));
        }
    } else {
        assert(a2[0] == a[0]);
        assert(b.len() >= 1 && b[0] == a[0]);
        lemma_unescape_snoc_plain(a.subrange(1, a.len() as int), b.drop_first(), c);
        assert(a2.subrange(1, (a.len() + 1) as int) =~= a.subrange(1, a.len() as int).push(c));
        assert(b.push(c)[0] == b[0]);
        assert(b.push(c).drop_first() =~= b.drop_first().push(c));
        assert(unescapes_to(a2, b.push(c)));
    }
}

/// A backslash pair extends an unescaping by its plain character.
proof fn lemma_unescape_snoc_pair(a: Seq<char>, b: Seq<char>, e: char)
    requires
        unescapes_to(a, b),
        e == '"' || e == '\\',
    ensures
        unescapes_to(a.push('\\').push(e), b.push(e)),
    decreases a.len(),
{
    let a2 = a.push('\\').push(e);
    if a.len() == 0 {
        assert(b.len() == 0);
        assert(a2[0] == '\\' && a2[1] == e);
        assert(a2.subrange(2, 2) =~= Seq::<char>::empty());
        assert(b.push(e)[0] == e);
        assert(b.push(e).drop_first() =~= Seq::<char>::empty());
        assert(unescapes_to(Seq::<char>::empty(), Seq::<char>::empty()));
        assert(a2.subrange(2, a2.len() as int) =~= Seq::<char>::empty());
        assert(unescapes_to(a2, b.push(e)));
    } else if a[0] == '\\' {
        assert(a2[0] == a[0]);
        if a.len() >= 2 && (a[1] == '"' || a[1] == '\\') {
            assert(a2[1] == a[1]);
            assert(b.len() >= 1 && b[0] == a[1]);
            lemma_unescape_snoc_pair(a.subrange(2, a.len() as int), b.drop_first(), e);
            assert(a2.subrange(2, a2.len() as int) =~= a.subrange(2, a.len() as int).push(
                '\\',
            ).push(e));
            assert(b.push(e)[0] == b[0]);
            assert(b.push(e).drop_first() =~= b.drop_first().push(e));
            assert(unescapes_to(a2, b.push(e)));
        } else {
            assert(a2[1] == a[1] && a2[2] == a[2] && a2[3] == a[3] && a2[4] == a[4] && a2[5]
                == a[5]);
            lemma_unescape_snoc_pair(a.subrange(6, a.len() as int), b.drop_first(), e);
            assert(a2.subrange(6, a2.len() as int) =~= a.subrange(6, a.len() as int).push(
                '\\',
            ).push(e));
            assert(b.push(e)[0] == b[0]);
            assert(b.push(e).drop_first() =~= b.drop_first().push(e));
            assert(unescapes_to(a2, b.push(e)));
        }
    } else {
        assert(a2[0] == a[0]);
        assert(b.len() >= 1 && b[0] == a[0]);
        lemma_unescape_snoc_pair(a.subrange(1, a.len() as int), b.drop_first(), e);
        assert(a2.subrange(1, a2.len() as int) =~= a.subrange(1, a.len() as int).push('\\').push(
            e,
        ));
        assert(b.push(e)[0] == b[0]);
        assert(b.push(e).drop_first() =~= b.drop_first().push(e));
        assert(unescapes_to(a2, b.push(e)));
    }
}

/// A `\u00` escape extends an unescaping by its control character.
proof fn lemma_unescape_snoc_u(a: Seq<char>, b: Seq<char>, x: char, y: char, ch: char)
    requires
        unescapes_to(a, b),
        crate::text::is_hex_digit(x),
        crate::text::is_hex_digit(y),
        (ch as u32) == 16 * crate::text::hex_digit_val(x) + crate::text::hex_digit_val(y),
    ensures
        unescapes_to(a + seq!['\\', 'u', '0', '0', x, y], b.push(ch)),
    decreases a.len(),
{
    let tail = seq!['\\', 'u', '0', '0', x, y];
    let a2 = a + tail;
    if a.len() == 0 {
        assert(b.len() == 0);
        assert(a2 =~= tail);
        assert(a2[0] == '\\' && a2[1] == 'u' && a2[2] == '0' && a2[3] == '0' && a2[4] == x
            && a2[5] == y);
        assert('u' as int == 117 && '"' as int == 34 && '\\' as int == 92);
        assert(a2.subrange(6, 6) =~= Seq::<char>::empty());
        assert(b.push(ch)[0] == ch);
        assert(b.push(ch).drop_first() =~= Seq::<char>::empty());
        assert(unescapes_to(Seq::<char>::empty(), Seq::<char>::empty()));
        assert(a2.subrange(6, a2.len() as int) =~= Seq::<char>::empty());
        assert(unescapes_to(a2, b.push(ch)));
    } else if a[0] == '\\' {
        assert(a2[0] == a[0] && a2[1] == a[1]);
        if a.len() >= 2 && (a[1] == '"' || a[1] == '\\') {
            assert(b.len() >= 1 && b[0] == a[1]);
            lemma_unescape_snoc_u(a.subrange(2, a.len() as int), b.drop_first(), x, y, ch);
            assert(a2.subrange(2, a2.len() as int) =~= a.subrange(2, a.len() as int) + tail);
            assert(b.push(ch)[0] == b[0]);
            assert(b.push(ch).drop_first() =~= b.drop_first().push(ch));
            assert(unescapes_to(a2, b.push(ch)));
        } else {
            assert(a2[1] == a[1] && a2[2] == a[2] && a2[3] == a[3] && a2[4] == a[4] && a2[5]
                == a[5]);
            lemma_unescape_snoc_u(a.subrange(6, a.len() as int), b.drop_first(), x, y, ch);
            assert(a2.subrange(6, a2.len() as int) =~= a.subrange(6, a.len() as int) + tail);
            assert(b.push(ch)[0] == b[0]);
            assert(b.push(ch).drop_first() =~= b.drop_first().push(ch));
            assert(unescapes_to(a2, b.push(ch)));
        }
    } else {
        assert(a2[0] == a[0]);
        assert(b.len() >= 1 && b[0] == a[0]);
        lemma_unescape_snoc_u(a.subrange(1, a.len() as int), b.drop_first(), x, y, ch);
        assert(a2.subrange(1, a2.len() as int) =~= a.subrange(1, a.len() as int) + tail);
        assert(b.push(ch)[0] == b[0]);
        assert(b.push(ch).drop_first() =~= b.drop_first().push(ch));
        assert(unescapes_to(a2, b.push(ch)));
    }
}

/// Reads a quoted string with the escapes [`esc_char`] writes: the text
/// between the quotes unescapes to the result.
fn read_string(s: &str, i0: usize, n: usize) -> (r: Option<(String, usize)>)
    requires
        i0 <= n,
        n == s@.len(),
    ensures
        r matches Some(p) ==> i0 + 1 < p.1 <= n && s@[i0 as int] == '"' && s@[p.1 - 1] == '"'
            && unescapes_to(s@.subrange(i0 + 1, p.1 - 1), p.0@),
{
    if !(i0 < n && s.get_char(i0) == '"') {
        return None;
    }
    let mut out = String::new();
    let mut i: usize = i0 + 1;
    proof {
        assert(s@.subrange(i0 + 1, i0 + 1) =~= Seq::<char>::empty());
    }
    loop
        invariant
            n == s@.len(),
            i0 + 1 <= i <= n,
            s@[i0 as int] == '"',
            unescapes_to(s@.subrange(i0 + 1, i as int), out@),
        decreases n - i,
    {
        if i >= n {
            return None;
        }
        let c = s.get_char(i);
        if c == '"' {
            return Some((out, i + 1));
        }
        let ghost region = s@.subrange(i0 + 1, i as int);
        if c == '\\' {
            if i + 1 >= n {
                return None;
            }
            let e = s.get_char(i + 1);
            if e == '"' {
                let ghost preout = out@;
                push_char(&mut out, '"');
                proof {
                    lemma_unescape_snoc_pair(region, preout, '"');
                    assert(s@.subrange(i0 + 1, i + 2) =~= region.push('\\').push('"'));
                    assert(out@ == preout.push('"'));
                }
                i = i + 2;
            } else if e == '\\' {
                let ghost preout = out@;
                push_char(&mut out, '\\');
                proof {
                    lemma_unescape_snoc_pair(region, preout, '\\');
                    assert(s@.subrange(i0 + 1, i + 2) =~= region.push('\\').push('\\'));
                    assert(out@ == preout.push('\\'));
                }
                i = i + 2;
            } else if e == 'u' {
                if n - i < 6 {
                    return None;
                }
                let z1 = s.get_char(i + 2);
                let z2 = s.get_char(i + 3);
                if !(z1 == '0' && z2 == '0') {
                    return None;
                }
                let h1 = s.get_char(i + 4);
                let h2 = s.get_char(i + 5);
                if !(crate::text::char_is_hex(h1) && crate::text::char_is_hex(h2)) {
                    return None;
                }
                let v = crate::text::char_hex_val(h1) * 16 + crate::text::char_hex_val(h2);
                let ch = ascii_char(v);
                let ghost preout = out@;
                push_char(&mut out, ch);
                proof {
                    assert((ch as u32) == 16 * crate::text::hex_digit_val(h1)
                        + crate::text::hex_digit_val(h2));
                    lemma_unescape_snoc_u(region, preout, h1, h2, ch);
                    assert(s@.subrange(i0 + 1, i + 6) =~= region + seq![
                        '\\',
                        'u',
                        '0',
                        '0',
                        h1,
                        h2,
                    ]);
                }
                i = i + 6;
            } else {
                return None;
            }
        } else {
            let ghost preout = out@;
            push_char(&mut out, c);
            proof {
                lemma_unescape_snoc_plain(region, preout, c);
                assert(s@.subrange(i0 + 1, i + 1) =~= region.push(c));
                assert(out@ == preout.push(c));
            }
            i = i + 1;
        }
    }
}

/// Relies on `char::from_u32`: the scalar value back as a character; the
/// argument stays below 256, inside the valid range.
#[verifier::external_body]
fn ascii_char(v: u32) -> (c: char)
    requires
        v < 256,
    ensures
        c as u32 == v,
{
    match char::from_u32(v) {
        Some(c) => c,
        None => ' ',
    }
}

} // verus!
