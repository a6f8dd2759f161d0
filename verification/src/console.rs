//! The operator console's logic: the colon-command grammar, the duration
//! grammar, the key-by-key input state machine, and command dispatch.
//! Terminal rendering stays with the binary; everything that decides is
//! here.

use vstd::prelude::*;
use vstd::string::StrSliceExecFns;
use crate::hub::ChatServer;
use crate::text::all_digits;
use crate::text::dec_val;
use crate::text::digit_run_end;
use crate::text::lemma_digit_run_end;
use crate::text::parse_dec_run;
use crate::text::pop_char;
use crate::text::push_char;
use crate::text::str_eq;
use crate::types::BanDuration;

verus! {

/// An operator command.
pub enum Command {
    Kick { target: String, reason: Option<String> },
    Ban { target: String, duration: BanDuration, reason: Option<String> },
    Unban { ip: String },
}

/// ASCII lowercase folding, enough for the duration keywords.
pub open spec fn lower_char(c: char) -> char {
    if 'A' <= c && c <= 'Z' {
        (((c as int) + 32) as char)
    } else {
        c
    }
}

pub open spec fn lower_seq(s: Seq<char>) -> Seq<char> {
    s.map_values(|c: char| lower_char(c))
}

/// The duration grammar: `permanent` or `perm` in any letter case, else
/// one or more digits followed by `m`, `h` or `d`.
pub open spec fn spec_parse_duration(s: Seq<char>) -> Option<BanDuration> {
    if lower_seq(s) == seq!['p', 'e', 'r', 'm', 'a', 'n', 'e', 'n', 't'] || lower_seq(s)
        == seq!['p', 'e', 'r', 'm'] {
        Some(BanDuration::Permanent)
    } else if s.len() < 2 {
        None
    } else {
        let num = s.subrange(0, s.len() - 1);
        let unit = s.last();
        if all_digits(num) && dec_val(num) <= u64::MAX && (unit == 'm' || unit == 'h' || unit
            == 'd') {
            if unit == 'm' {
                Some(BanDuration::Minutes(dec_val(num) as u64))
            } else if unit == 'h' {
                Some(BanDuration::Hours(dec_val(num) as u64))
            } else {
                Some(BanDuration::Days(dec_val(num) as u64))
            }
        } else {
            None
        }
    }
}

/// Compares `s` with an all-lowercase keyword, folding letter case.
fn eq_ignore_case(s: &str, keyword: &str) -> (r: bool)
    ensures
        r == (lower_seq(s@) == keyword@),
    decreases s@.len(),
{
    let n = s.unicode_len();
    let m = keyword.unicode_len();
    if n != m {
        proof {
            assert(lower_seq(s@).len() == s@.len());
            assert(lower_seq(s@) != keyword@);
        }
        return false;
    }
    let mut i: usize = 0;
    while i < n
        invariant
            n == s@.len(),
            n == keyword@.len(),
            i <= n,
            forall|j: int| 0 <= j < i ==> lower_seq(s@)[j] == keyword@[j],
        decreases n - i,
    {
        let c = s.get_char(i);
        let folded: char = if 'A' <= c && c <= 'Z' {
            proof {
                assert('A' as int == 65 && 'Z' as int == 90);
            }
            char_from_u32((c as u32) + 32)
        } else {
            c
        };
        proof {
            assert(folded == lower_char(s@[i as int]));
            assert(lower_seq(s@)[i as int] == lower_char(s@[i as int]));
        }
        if folded != keyword.get_char(i) {
            proof {
                assert(lower_seq(s@)[i as int] != keyword@[i as int]);
            }
            return false;
        }
        i = i + 1;
    }
    proof {
        assert(lower_seq(s@) =~= keyword@);
    }
    true
}

/// Relies on `char::from_u32`: the scalar value back as a character; the
/// argument stays inside the ASCII range, where every value is a valid
/// character.
#[verifier::external_body]
fn char_from_u32(v: u32) -> (c: char)
    requires
        v < 0xD800,
    ensures
        c as u32 == v,
{
    match char::from_u32(v) {
        Some(c) => c,
        None => ' ',
    }
}

/// Reads a ban duration: the result agrees with the duration grammar
/// exactly.
pub fn parse_duration(s: &str) -> (r: Result<BanDuration, String>)
    ensures
        (r is Ok) == (spec_parse_duration(s@) is Some),
        r matches Ok(d) ==> spec_parse_duration(s@) == Some(d),
{
    if eq_ignore_case(s, "permanent") {
        proof {
            reveal_strlit("permanent");
            assert("permanent"@ =~= seq!['p', 'e', 'r', 'm', 'a', 'n', 'e', 'n', 't']);
        }
        return Ok(BanDuration::Permanent);
    }
    if eq_ignore_case(s, "perm") {
        proof {
            reveal_strlit("perm");
            assert("perm"@ =~= seq!['p', 'e', 'r', 'm']);
        }
        return Ok(BanDuration::Permanent);
    }
    proof {
        reveal_strlit("permanent");
        reveal_strlit("perm");
        assert("permanent"@ =~= seq!['p', 'e', 'r', 'm', 'a', 'n', 'e', 'n', 't']);
        assert("perm"@ =~= seq!['p', 'e', 'r', 'm']);
    }
    let n = s.unicode_len();
    if n < 2 {
        return Err(String::from_str("invalid duration"));
    }
    proof {
        lemma_digit_run_end(s@, 0, n - 1);
    }
    let num = match parse_dec_run(s, 0, n - 1) {
        None => {
            proof {
                let e = digit_run_end(s@, 0, n as int - 1);
                let numsub = s@.subrange(0, n as int - 1);
                if all_digits(numsub) && dec_val(numsub) <= u64::MAX {
                    assert forall|j: int| 0 <= j < n - 1 implies crate::text::is_digit(
                        #[trigger] s@[j],
                    ) by {
                        assert(numsub[j] == s@[j]);
                    }
                    crate::text::lemma_run_is(s@, 0, n as int - 1, n as int - 1);
                    assert(e == n - 1);
                    assert(numsub =~= s@.subrange(0, e));
                }
            }
            return Err(String::from_str("invalid duration number"));
        },
        Some(p) => p,
    };
    if num.1 != n - 1 {
        proof {
            let numsub = s@.subrange(0, n as int - 1);
            if all_digits(numsub) {
                assert forall|j: int| 0 <= j < n - 1 implies crate::text::is_digit(
                    #[trigger] s@[j],
                ) by {
                    assert(numsub[j] == s@[j]);
                }
                crate::text::lemma_run_is(s@, 0, n as int - 1, n as int - 1);
            }
        }
        return Err(String::from_str("invalid duration number"));
    }
    proof {
        assert(s@.subrange(0, n as int - 1) =~= s@.subrange(0, num.1 as int));
        assert(s@.last() == s@[n as int - 1]);
    }
    let unit = s.get_char(n - 1);
    if unit == 'm' {
        Ok(BanDuration::Minutes(num.0))
    } else if unit == 'h' {
        Ok(BanDuration::Hours(num.0))
    } else if unit == 'd' {
        Ok(BanDuration::Days(num.0))
    } else {
        Err(String::from_str("invalid duration unit"))
    }
}

/// Whitespace for token splitting.
pub open spec fn is_wsp(c: char) -> bool {
    c == ' ' || c == '\t' || c == '\r' || c == '\n'
}

/// The whitespace-separated tokens of `s`, `cur` being the word read so
/// far.
pub open spec fn toks_acc(s: Seq<char>, cur: Seq<char>) -> Seq<Seq<char>>
    decreases s.len(),
{
    if s.len() == 0 {
        if cur.len() == 0 {
            Seq::empty()
        } else {
            seq![cur]
        }
    } else if is_wsp(s[0]) {
        (if cur.len() > 0 {
            seq![cur]
        } else {
            Seq::empty()
        }) + toks_acc(s.drop_first(), Seq::empty())
    } else {
        toks_acc(s.drop_first(), cur.push(s[0]))
    }
}

pub open spec fn spec_tokens(s: Seq<char>) -> Seq<Seq<char>> {
    toks_acc(s, Seq::empty())
}

/// The views of a vector of strings.
pub open spec fn strs_views(v: Seq<String>) -> Seq<Seq<char>> {
    v.map_values(|x: String| x@)
}

/// Splits on runs of whitespace; empty tokens never arise.
pub fn tokenize(s: &str) -> (r: Vec<String>)
    ensures
        strs_views(r@) == spec_tokens(s@),
{
    let n = s.unicode_len();
    let mut toks: Vec<String> = Vec::new();
    let mut cur = String::new();
    let mut i: usize = 0;
    proof {
        assert(s@.subrange(0, n as int) =~= s@);
        assert(strs_views(toks@) =~= Seq::<Seq<char>>::empty());
    }
    while i < n
        invariant
            n == s@.len(),
            i <= n,
            spec_tokens(s@) == strs_views(toks@) + toks_acc(s@.subrange(i as int, n as int), cur@),
        decreases n - i,
    {
        let c = s.get_char(i);
        let ghost rest = s@.subrange(i as int, n as int);
        proof {
            assert(rest[0] == s@[i as int]);
            assert(rest.drop_first() =~= s@.subrange(i + 1, n as int));
        }
        if char_is_wsp(c) {
            proof {
                assert(toks_acc(rest, cur@) == (if cur@.len() > 0 {
                    seq![cur@]
                } else {
                    Seq::<Seq<char>>::empty()
                }) + toks_acc(rest.drop_first(), Seq::<char>::empty()));
            }
            if !cur.as_str().is_empty() {
                let ghost curv = cur@;
                let ghost oldtoks = toks@;
                let mut done = String::new();
                core::mem::swap(&mut done, &mut cur);
                toks.push(done);
                proof {
                    assert(cur@ =~= Seq::<char>::empty());
                    assert(strs_views(toks@) =~= strs_views(oldtoks) + seq![curv]);
                    assert(strs_views(oldtoks) + (seq![curv] + toks_acc(
                        s@.subrange(i + 1, n as int),
                        Seq::<char>::empty(),
                    )) =~= (strs_views(oldtoks) + seq![curv]) + toks_acc(
                        s@.subrange(i + 1, n as int),
                        Seq::<char>::empty(),
                    ));
                    assert(spec_tokens(s@) == strs_views(toks@) + toks_acc(
                        s@.subrange(i + 1, n as int),
                        cur@,
                    ));
                }
            } else {
                proof {
                    assert(cur@.len() == 0);
                    assert(cur@ =~= Seq::<char>::empty());
                    assert(Seq::<Seq<char>>::empty() + toks_acc(
                        s@.subrange(i + 1, n as int),
                        Seq::<char>::empty(),
                    ) =~= toks_acc(s@.subrange(i + 1, n as int), Seq::<char>::empty()));
                    assert(spec_tokens(s@) == strs_views(toks@) + toks_acc(
                        s@.subrange(i + 1, n as int),
                        cur@,
                    ));
                }
            }
        } else {
            let ghost oldcur = cur@;
            push_char(&mut cur, c);
            proof {
                assert(toks_acc(rest, oldcur) == toks_acc(rest.drop_first(), oldcur.push(
                    s@[i as int],
                )));
                assert(cur@ == oldcur.push(s@[i as int]));
                assert(spec_tokens(s@) == strs_views(toks@) + toks_acc(
                    s@.subrange(i + 1, n as int),
                    cur@,
                ));
            }
        }
        i = i + 1;
    }
    proof {
        assert(s@.subrange(n as int, n as int) =~= Seq::<char>::empty());
        assert(toks_acc(Seq::<char>::empty(), cur@) == (if cur@.len() == 0 {
            Seq::<Seq<char>>::empty()
        } else {
            seq![cur@]
        }));
    }
    if !cur.as_str().is_empty() {
        let ghost curv = cur@;
        let ghost oldtoks = toks@;
        toks.push(cur);
        proof {
            assert(strs_views(toks@) =~= strs_views(oldtoks) + seq![curv]);
        }
    } else {
        proof {
            assert(strs_views(toks@) + Seq::<Seq<char>>::empty() =~= strs_views(toks@));
        }
    }
    toks
}

fn char_is_wsp(c: char) -> (r: bool)
    ensures
        r == is_wsp(c),
{
    c == ' ' || c == '\t' || c == '\r' || c == '\n'
}

/// The tokens from `a` on, joined with single spaces.
pub open spec fn join_sp(ts: Seq<Seq<char>>, a: int) -> Seq<char>
    decreases ts.len() - a,
{
    if a < 0 || a >= ts.len() {
        Seq::empty()
    } else if a == ts.len() - 1 {
        ts[a]
    } else {
        ts[a] + seq![' '] + join_sp(ts, a + 1)
    }
}

/// Joins the tokens from `a` on with single spaces.
fn join_from(toks: &Vec<String>, a: usize) -> (r: String)
    requires
        a < toks@.len(),
    ensures
        r@ == join_sp(strs_views(toks@), a as int),
{
    let ghost ts = strs_views(toks@);
    let nn = toks.len();
    let mut out: String = toks[a].clone();
    proof {
        assert(ts[a as int] == toks@[a as int]@);
    }
    let mut i: usize = a + 1;
    while i < toks.len()
        invariant
            a < toks@.len(),
            a + 1 <= i <= toks@.len(),
            ts == strs_views(toks@),
            join_sp(ts, a as int) == out@ + join_tail(ts, i as int),
        decreases toks@.len() - i,
    {
        proof {
            lemma_join_tail_step(ts, i as int);
            assert(ts[i as int] == toks@[i as int]@);
        }
        out.append(" ");
        out.append(toks[i].as_str());
        proof {
            reveal_strlit(" ");
            assert(" "@ =~= seq![' ']);
        }
        i = i + 1;
    }
    proof {
        assert(join_tail(ts, toks@.len() as int) == Seq::<char>::empty());
        assert(out@ + Seq::<char>::empty() =~= out@);
    }
    out
}

/// What remains to append after the tokens before `i` are joined.
pub open spec fn join_tail(ts: Seq<Seq<char>>, i: int) -> Seq<char> {
    if i >= ts.len() {
        Seq::empty()
    } else {
        seq![' '] + join_sp(ts, i)
    }
}

proof fn lemma_join_tail_step(ts: Seq<Seq<char>>, i: int)
    requires
        0 < i < ts.len(),
    ensures
        join_tail(ts, i) =~= seq![' '] + ts[i] + join_tail(ts, i + 1),
{
    if i == ts.len() - 1 {
        assert(join_sp(ts, i) == ts[i]);
        assert(seq![' '] + ts[i] + Seq::<char>::empty() =~= seq![' '] + ts[i]);
    } else {
        assert(join_sp(ts, i) == ts[i] + seq![' '] + join_sp(ts, i + 1));
        assert(seq![' '] + (ts[i] + seq![' '] + join_sp(ts, i + 1)) =~= seq![' '] + ts[i] + (
        seq![' '] + join_sp(ts, i + 1)));
    }
}

/// The command a token names, with or without its leading slash.
pub open spec fn spec_keyword_is(t: Seq<char>, bare: Seq<char>, slashed: Seq<char>) -> bool {
    t == bare || t == slashed
}

/// A spec-level command: the same shape as [`Command`], over views.
pub enum SpecCommand {
    Kick { target: Seq<char>, reason: Option<Seq<char>> },
    Ban { target: Seq<char>, duration: BanDuration, reason: Option<Seq<char>> },
    Unban { ip: Seq<char> },
}

pub open spec fn command_view(c: &Command) -> SpecCommand {
    match c {
        Command::Kick { target, reason } => SpecCommand::Kick {
            target: target@,
            reason: match reason {
                Some(r) => Some(r@),
                None => None,
            },
        },
        Command::Ban { target, duration, reason } => SpecCommand::Ban {
            target: target@,
            duration: *duration,
            reason: match reason {
                Some(r) => Some(r@),
                None => None,
            },
        },
        Command::Unban { ip } => SpecCommand::Unban { ip: ip@ },
    }
}

/// The colon-command grammar over the token list.
pub open spec fn spec_parse_command(s: Seq<char>) -> Option<SpecCommand> {
    let ts = spec_tokens(s);
    if ts.len() == 0 {
        None
    } else if spec_keyword_is(ts[0], seq!['k', 'i', 'c', 'k'], seq!['/', 'k', 'i', 'c', 'k']) {
        if ts.len() < 2 {
            None
        } else {
            Some(
                SpecCommand::Kick {
                    target: ts[1],
                    reason: if ts.len() > 2 {
                        Some(join_sp(ts, 2))
                    } else {
                        None
                    },
                },
            )
        }
    } else if spec_keyword_is(ts[0], seq!['b', 'a', 'n'], seq!['/', 'b', 'a', 'n']) {
        if ts.len() < 3 {
            None
        } else {
            match spec_parse_duration(ts[2]) {
                None => None,
                Some(d) => Some(
                    SpecCommand::Ban {
                        target: ts[1],
                        duration: d,
                        reason: if ts.len() > 3 {
                            Some(join_sp(ts, 3))
                        } else {
                            None
                        },
                    },
                ),
            }
        }
    } else if spec_keyword_is(ts[0], seq!['u', 'n', 'b', 'a', 'n'], seq!['/', 'u', 'n', 'b', 'a', 'n']) {
        if ts.len() < 2 {
            None
        } else {
            Some(SpecCommand::Unban { ip: ts[1] })
        }
    } else {
        None
    }
}

/// Reads a colon command: the result agrees with the command grammar
/// exactly.
pub fn parse_command(s: &str) -> (r: Result<Command, String>)
    ensures
        (r is Ok) == (spec_parse_command(s@) is Some),
        r matches Ok(c) ==> spec_parse_command(s@) == Some(command_view(&c)),
{
    let toks = tokenize(s);
    let ghost ts = spec_tokens(s@);
    if toks.len() == 0 {
        return Err(String::from_str("empty command"));
    }
    proof {
        assert(ts[0] == toks@[0]@);
        reveal_strlit("kick");
        reveal_strlit("/kick");
        reveal_strlit("ban");
        reveal_strlit("/ban");
        reveal_strlit("unban");
        reveal_strlit("/unban");
        assert("kick"@ =~= seq!['k', 'i', 'c', 'k']);
        assert("/kick"@ =~= seq!['/', 'k', 'i', 'c', 'k']);
        assert("ban"@ =~= seq!['b', 'a', 'n']);
        assert("/ban"@ =~= seq!['/', 'b', 'a', 'n']);
        assert("unban"@ =~= seq!['u', 'n', 'b', 'a', 'n']);
        assert("/unban"@ =~= seq!['/', 'u', 'n', 'b', 'a', 'n']);
    }
    let head = toks[0].as_str();
    if str_eq(head, "kick") || str_eq(head, "/kick") {
        if toks.len() < 2 {
            return Err(String::from_str("a target is needed"));
        }
        let target = toks[1].clone();
        proof {
            assert(ts[1] == toks@[1]@);
        }
        let reason: Option<String> = if toks.len() > 2 {
            Some(join_from(&toks, 2))
        } else {
            None
        };
        Ok(Command::Kick { target, reason })
    } else if str_eq(head, "ban") || str_eq(head, "/ban") {
        if toks.len() < 3 {
            return Err(String::from_str("a target and a duration are needed"));
        }
        proof {
            assert(ts[1] == toks@[1]@);
            assert(ts[2] == toks@[2]@);
        }
        let duration = match parse_duration(toks[2].as_str()) {
            Err(e) => {
                return Err(e);
            },
            Ok(d) => d,
        };
        let target = toks[1].clone();
        let reason: Option<String> = if toks.len() > 3 {
            Some(join_from(&toks, 3))
        } else {
            None
        };
        Ok(Command::Ban { target, duration, reason })
    } else if str_eq(head, "unban") || str_eq(head, "/unban") {
        if toks.len() < 2 {
            return Err(String::from_str("an address is needed"));
        }
        proof {
            assert(ts[1] == toks@[1]@);
        }
        Ok(Command::Unban { ip: toks[1].clone() })
    } else {
        Err(String::from_str("unknown command"))
    }
}

/// Dispatches a parsed command against the hub: each arm answers with the
/// corresponding moderation contract.
pub fn run_command(hub: &mut ChatServer, cmd: Command, now_ms: u64) -> (r: Result<String, String>)
    requires
        old(hub).wf(),
    ensures
        final(hub).wf(),
        final(hub).spec_max_clients() == old(hub).spec_max_clients(),
        cmd matches Command::Kick { target, reason } ==> {
            &&& final(hub).spec_bans()@ == old(hub).spec_bans()@
            &&& (r is Ok) == old(hub).spec_resolvable(target@)
            &&& (!(r is Ok) ==> final(hub).spec_clients() == old(hub).spec_clients() && final(hub).spec_fanout() == old(hub).spec_fanout() && final(hub).spec_oplog() == old(hub).spec_oplog() && final(hub).spec_stats() == old(hub).spec_stats())
            &&& (r is Ok ==> exists|k: int|
                {
                    &&& old(hub).spec_resolves_at(target@, k)
                    &&& final(hub).spec_clients() =~= old(hub).spec_clients().remove(k)
                    &&& final(hub).spec_stats() == (crate::types::Stats {
                        total_kicks: crate::types::sat_u64(old(hub).spec_stats().total_kicks + 1),
                        ..old(hub).spec_stats()
                    })
                    &&& final(hub).spec_oplog().len() == old(hub).spec_oplog().len() + 2
                    &&& (final(hub).spec_oplog().last().action matches Some(a) && (
                    a matches crate::types::AdminAction::Kick { nickname, ip } && nickname@ == old(hub).spec_clients()[k].nickname@ && ip == old(hub).spec_clients()[k].ip))
                })
        },
        cmd matches Command::Ban { target, duration, reason } ==> {
            &&& (r is Ok) == (old(hub).spec_ban_ip(target@) is Some)
            &&& (!(r is Ok) ==> final(hub).spec_clients() == old(hub).spec_clients() && final(hub).spec_stats() == old(hub).spec_stats() && final(hub).spec_bans()@ == old(hub).spec_bans()@)
            &&& (r is Ok ==> ({
                let ip = old(hub).spec_ban_ip(target@)->0;
                &&& final(hub).spec_clients() == old(hub).spec_clients().filter(
                    |c: crate::hub::Client| c.ip != ip,
                )
                &&& (duration is Permanent ==> forall|t: u64|
                    final(hub).spec_bans().spec_is_banned(ip, t))
                &&& final(hub).spec_stats() == (crate::types::Stats {
                    total_bans: crate::types::sat_u64(old(hub).spec_stats().total_bans + 1),
                    ..old(hub).spec_stats()
                })
                &&& exists|e: crate::ban::BanEntry|
                    {
                        &&& #[trigger] e.ip == ip
                        &&& e.banned_at_ms == now_ms
                        &&& e.reason@ == (match reason {
                            Some(s) => s@,
                            None => "No reason provided"@,
                        })
                        &&& e.expires_at_ms == (match duration.spec_seconds() {
                            None => None::<u64>,
                            Some(secs) => Some(
                                crate::types::sat_u64(
                                    now_ms + crate::types::sat_u64(secs * 1000),
                                ),
                            ),
                        })
                        &&& ((exists|k: int|
                            0 <= k < old(hub).spec_bans()@.len() && (#[trigger] old(hub).spec_bans()@[k]).ip == ip && final(hub).spec_bans()@ =~= old(hub).spec_bans()@.update(k, e)) || (!old(hub).spec_bans().spec_has(ip)
                            && final(hub).spec_bans()@ =~= old(hub).spec_bans()@.push(e)))
                    }
            }))
        },
        cmd matches Command::Unban { ip } ==> {
            &&& final(hub).spec_clients() == old(hub).spec_clients()
            &&& final(hub).spec_stats() == old(hub).spec_stats()
            &&& (r is Ok) == ({
                let ipo = crate::ip::spec_parse_ip(ip@, 0, ip@.len() as int);
                ipo is Some && old(hub).spec_bans().spec_has(ipo->0)
            })
            &&& (!(r is Ok) ==> final(hub).spec_bans()@ == old(hub).spec_bans()@)
            &&& (r is Ok ==> ({
                let ipc = crate::ip::spec_parse_ip(ip@, 0, ip@.len() as int)->0;
                &&& !final(hub).spec_bans().spec_has(ipc)
                &&& exists|k: int|
                    0 <= k < old(hub).spec_bans()@.len() && (#[trigger] old(hub).spec_bans()@[k]).ip == ipc && final(hub).spec_bans()@ =~= old(hub).spec_bans()@.remove(k)
                &&& (final(hub).spec_oplog().last().action matches Some(a) && a == (
                crate::types::AdminAction::Unban { ip: ipc }))
            }))
        },
{
    match cmd {
        Command::Kick { target, reason } => hub.kick_client(target.as_str(), reason, now_ms),
        Command::Ban { target, duration, reason } => hub.ban_client(
            target.as_str(),
            duration,
            reason,
            now_ms,
        ),
        Command::Unban { ip } => hub.unban_client(ip.as_str(), now_ms),
    }
}

/// How a status line should be colored.
#[derive(Clone, Copy, Debug, PartialEq, Eq, Structural)]
pub enum StatusLevel {
    Success,
    Error,
}

/// A key as the console sees it.
#[derive(Clone, Copy, Debug, PartialEq, Eq, Structural)]
pub enum KeyInput {
    Char(char),
    CtrlC,
    Enter,
    Esc,
    Backspace,
    Up,
    Down,
}

/// What the caller should do after a key.
#[derive(Clone, Copy, Debug, PartialEq, Eq, Structural)]
pub enum NormalKeyOutcome {
    Stay,
    Quit,
    EnterCommandMode,
}

/// The console's input state: normal mode or command mode with a line
/// buffer and a history cursor.
pub struct ConsoleState {
    pub command_mode: bool,
    pub command_buffer: String,
    pub command_history: Vec<String>,
    pub history_index: Option<usize>,
}

impl ConsoleState {
    /// The history cursor stays inside the history.
    pub open spec fn wf(&self) -> bool {
        match self.history_index {
            None => true,
            Some(i) => i < self.command_history@.len(),
        }
    }

    pub fn new() -> (r: ConsoleState)
        ensures
            r.wf(),
            !r.command_mode,
            r.command_buffer@.len() == 0,
            r.command_history@.len() == 0,
            r.history_index is None,
    {
        ConsoleState {
            command_mode: false,
            command_buffer: String::new(),
            command_history: Vec::new(),
            history_index: None,
        }
    }

    /// A key in normal mode: `q` or Ctrl-C quits, `:` opens command mode
    /// with an empty buffer, anything else does nothing.
    pub fn handle_normal_input(&mut self, key: KeyInput) -> (r: NormalKeyOutcome)
        requires
            old(self).wf(),
        ensures
            final(self).wf(),
            final(self).command_history@ == old(self).command_history@,
            (key == KeyInput::Char('q') || key == KeyInput::CtrlC) ==> r == NormalKeyOutcome::Quit
                && *final(self) == *old(self),
            key == KeyInput::Char(':') ==> r == NormalKeyOutcome::EnterCommandMode && final(self).command_mode && final(self).command_buffer@.len() == 0 && final(self).history_index
                is None,
            !(key == KeyInput::Char('q') || key == KeyInput::CtrlC || key == KeyInput::Char(':'))
                ==> r == NormalKeyOutcome::Stay && *final(self) == *old(self),
    {
        match key {
            KeyInput::Char(c) => {
                if c == 'q' {
                    NormalKeyOutcome::Quit
                } else if c == ':' {
                    self.command_mode = true;
                    crate::text::clear_string(&mut self.command_buffer);
                    self.history_index = None;
                    NormalKeyOutcome::EnterCommandMode
                } else {
                    NormalKeyOutcome::Stay
                }
            },
            KeyInput::CtrlC => NormalKeyOutcome::Quit,
            _ => NormalKeyOutcome::Stay,
        }
    }

    /// A key in command mode.  Esc cancels; Enter submits the trimmed
    /// buffer when it is not blank, remembering it in the history; Up and
    /// Down walk the history into the buffer; Backspace erases one
    /// character; a printable character is appended.  The submitted line,
    /// if any, is returned for execution.
    pub fn handle_command_input(&mut self, key: KeyInput) -> (r: Option<String>)
        requires
            old(self).wf(),
        ensures
            final(self).wf(),
            r matches Some(line) ==> {
                &&& key == KeyInput::Enter
                &&& line@ == crate::text::trim_seq(old(self).command_buffer@)
                &&& line@.len() > 0
                &&& final(self).command_history@ =~= old(self).command_history@.push(line)
                &&& !final(self).command_mode
                &&& final(self).command_buffer@.len() == 0
            },
            key == KeyInput::Enter && r is None ==> crate::text::trim_seq(
                old(self).command_buffer@,
            ).len() == 0 && !final(self).command_mode,
            key == KeyInput::Esc ==> r is None && !final(self).command_mode && final(self).command_buffer@.len() == 0 && final(self).command_history@ == old(self).command_history@,
            key == KeyInput::CtrlC ==> r is None && *final(self) == *old(self),
            key == KeyInput::Backspace ==> r is None && final(self).command_buffer@ == (if old(self).command_buffer@.len() > 0 {
                old(self).command_buffer@.drop_last()
            } else {
                old(self).command_buffer@
            }) && final(self).command_history@ == old(self).command_history@,
            (key matches KeyInput::Char(c)) ==> r is None && final(self).command_buffer@ == old(self).command_buffer@.push(key->Char_0) && final(self).command_history@ == old(self).command_history@,
            key == KeyInput::Up ==> r is None && final(self).command_history@ == old(self).command_history@ && (if old(self).command_history@.len() == 0 {
                *final(self) == *old(self)
            } else {
                let idx: int = match old(self).history_index {
                    None => old(self).command_history@.len() - 1,
                    Some(i) => if i == 0 { 0 } else { i - 1 },
                };
                final(self).history_index == Some(idx as usize) && final(self).command_buffer@
                    == old(self).command_history@[idx]@
            }),
            key == KeyInput::Down ==> r is None && final(self).command_history@ == old(self).command_history@ && (match old(self).history_index {
                None => *final(self) == *old(self),
                Some(i) => if i + 1 < old(self).command_history@.len() {
                    final(self).history_index == Some((i + 1) as usize) && final(self).command_buffer@ == old(self).command_history@[i + 1]@
                } else {
                    final(self).history_index is None && final(self).command_buffer@.len() == 0
                },
            }),
    {
        match key {
            KeyInput::Esc => {
                self.command_mode = false;
                crate::text::clear_string(&mut self.command_buffer);
                self.history_index = None;
                None
            },
            KeyInput::Enter => {
                let trimmed = trim_string(&self.command_buffer);
                self.command_mode = false;
                crate::text::clear_string(&mut self.command_buffer);
                self.history_index = None;
                if !trimmed.as_str().is_empty() {
                    self.command_history.push(trimmed.clone());
                    Some(trimmed)
                } else {
                    None
                }
            },
            KeyInput::Backspace => {
                let _ = pop_char(&mut self.command_buffer);
                None
            },
            KeyInput::Up => {
                if self.command_history.len() > 0 {
                    let idx: usize = match self.history_index {
                        None => self.command_history.len() - 1,
                        Some(0) => 0,
                        Some(i) => i - 1,
                    };
                    self.history_index = Some(idx);
                    self.command_buffer = self.command_history[idx].clone();
                }
                None
            },
            KeyInput::Down => {
                let nn = self.command_history.len();
                match self.history_index {
                    None => {},
                    Some(idx) => {
                        if idx < nn - 1 {
                            self.history_index = Some(idx + 1);
                            self.command_buffer = self.command_history[idx + 1].clone();
                        } else {
                            self.history_index = None;
                            crate::text::clear_string(&mut self.command_buffer);
                        }
                    },
                }
                None
            },
            KeyInput::Char(c) => {
                push_char(&mut self.command_buffer, c);
                None
            },
            KeyInput::CtrlC => None,
        }
    }
}

/// The buffer with surrounding whitespace removed, as a fresh string.
fn trim_string(s: &String) -> (r: String)
    ensures
        r@ == crate::text::trim_seq(s@),
{
    let st = s.as_str();
    let n = st.unicode_len();
    let (f, t) = crate::text::trim_bounds(st, 0, n);
    proof {
        assert(st@.subrange(0, n as int) =~= st@);
    }
    let sub = st.substring_char(f, t);
    String::from_str(sub)
}

} // verus!
