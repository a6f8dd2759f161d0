//! Threat lists: feed-body parsing and address matching.  Fetching is the
//! binary's work; each refresh hands the parsed lists in and replaces the
//! old ones whole.

use vstd::prelude::*;
use vstd::string::StrSliceExecFns;
use crate::config::ThreatAction;
use crate::config::ThreatListFormat;
use crate::config::ThreatListsConfig;
use crate::ip::Cidr;
use crate::ip::find_char;
use crate::ip::find_char_spec;
use crate::ip::parse_cidr;
use crate::ip::parse_ip;
use crate::ip::spec_parse_cidr;
use crate::ip::spec_parse_ip;
use crate::text::trim_bounds;
use crate::text::trim_seq;

verus! {

/// The address a feed line contributes: blank lines and `#`/`;` comments
/// contribute nothing, anything else is read as one address.
pub open spec fn line_ip(line: Seq<char>) -> Option<u128> {
    let t = trim_seq(line);
    if t.len() == 0 || t[0] == '#' || t[0] == ';' {
        None
    } else {
        spec_parse_ip(t, 0, t.len() as int)
    }
}

/// The block a feed line contributes: the first `;`-separated field of a
/// non-blank, non-comment line, read as a CIDR block.
pub open spec fn line_cidr(line: Seq<char>) -> Option<Cidr> {
    let t = trim_seq(line);
    if t.len() == 0 || t[0] == '#' || t[0] == ';' {
        None
    } else {
        let c = find_char_spec(t, 0, t.len() as int, ';');
        let u = trim_seq(t.subrange(0, c));
        spec_parse_cidr(u, 0, u.len() as int)
    }
}

pub open spec fn opt_ip(o: Option<u128>) -> Seq<u128> {
    match o {
        None => Seq::empty(),
        Some(ip) => seq![ip],
    }
}

pub open spec fn opt_cidr(o: Option<Cidr>) -> Seq<Cidr> {
    match o {
        None => Seq::empty(),
        Some(c) => seq![c],
    }
}

/// The addresses of a feed body in plain-address format, line by line.
pub open spec fn collect_ips(s: Seq<char>, cur: Seq<char>) -> Seq<u128>
    decreases s.len(),
{
    if s.len() == 0 {
        opt_ip(line_ip(cur))
    } else if s[0] == '\n' {
        opt_ip(line_ip(cur)) + collect_ips(s.drop_first(), Seq::empty())
    } else {
        collect_ips(s.drop_first(), cur.push(s[0]))
    }
}

/// The blocks of a feed body in CIDR format, line by line.
pub open spec fn collect_cidrs(s: Seq<char>, cur: Seq<char>) -> Seq<Cidr>
    decreases s.len(),
{
    if s.len() == 0 {
        opt_cidr(line_cidr(cur))
    } else if s[0] == '\n' {
        opt_cidr(line_cidr(cur)) + collect_cidrs(s.drop_first(), Seq::empty())
    } else {
        collect_cidrs(s.drop_first(), cur.push(s[0]))
    }
}

/// What an address check found.
#[derive(Clone, Copy, Debug, PartialEq, Eq, Structural)]
pub enum ThreatVerdict {
    /// Not listed, or the manager is disabled.
    Clear,
    /// Listed; `block` tells whether the configured action refuses the
    /// connection or only asks for a warning.
    Matched { block: bool },
}

/// The threat-list manager: an address set and a block list, replaced
/// whole on every refresh.
pub struct ThreatListManager {
    config: ThreatListsConfig,
    ip_list: Vec<u128>,
    cidr_list: Vec<Cidr>,
}

impl ThreatListManager {
    pub closed spec fn spec_config(&self) -> ThreatListsConfig {
        self.config
    }

    pub closed spec fn spec_ips(&self) -> Seq<u128> {
        self.ip_list@
    }

    pub closed spec fn spec_cidrs(&self) -> Seq<Cidr> {
        self.cidr_list@
    }

    /// Every held block is well-formed.
    pub open spec fn wf(&self) -> bool {
        forall|i: int| 0 <= i < self.spec_cidrs().len() ==> (#[trigger] self.spec_cidrs()[i]).wf()
    }

    pub fn new(config: ThreatListsConfig) -> (r: ThreatListManager)
        ensures
            r.wf(),
            r.spec_ips().len() == 0,
            r.spec_cidrs().len() == 0,
            r.spec_config().enabled == config.enabled,
            r.spec_config().action == config.action,
    {
        ThreatListManager { config, ip_list: Vec::new(), cidr_list: Vec::new() }
    }

    pub fn is_enabled(&self) -> (r: bool)
        ensures
            r == self.spec_config().enabled,
    {
        self.config.enabled
    }

    /// Replaces both lists with a refresh's results; nothing is merged.
    pub fn replace_lists(&mut self, ips: Vec<u128>, cidrs: Vec<Cidr>)
        requires
            forall|i: int| 0 <= i < cidrs@.len() ==> (#[trigger] cidrs@[i]).wf(),
        ensures
            final(self).wf(),
            final(self).spec_ips() == ips@,
            final(self).spec_cidrs() == cidrs@,
            final(self).spec_config() == old(self).spec_config(),
    {
        self.ip_list = ips;
        self.cidr_list = cidrs;
    }

    /// Reads one feed body.  Plain-address format gives addresses and no
    /// blocks; CIDR format gives blocks and no addresses; lines that fail
    /// to read are skipped, as are blanks and comments.
    pub fn parse_list(&self, content: &str, format: ThreatListFormat) -> (r: Result<
        (Vec<u128>, Vec<Cidr>),
        String,
    >)
        ensures
            format == ThreatListFormat::Ip ==> (r matches Ok(p) && p.0@ == collect_ips(
                content@,
                Seq::empty(),
            ) && p.1@.len() == 0),
            format == ThreatListFormat::Cidr ==> (r matches Ok(p) && p.1@ == collect_cidrs(
                content@,
                Seq::empty(),
            ) && p.0@.len() == 0 && forall|i: int|
                0 <= i < p.1@.len() ==> (#[trigger] p.1@[i]).wf()),
            format == ThreatListFormat::Json ==> (r matches Ok(p) && p.0@
                == crate::jsontext::spec_json_ips(content@) && p.1@.len() == 0),
    {
        match format {
            ThreatListFormat::Ip => {
                let ips = parse_ip_lines(content);
                Ok((ips, Vec::new()))
            },
            ThreatListFormat::Cidr => {
                let cidrs = parse_cidr_lines(content);
                Ok((Vec::new(), cidrs))
            },
            ThreatListFormat::Json => {
                let ips = crate::jsontext::parse_json_ip_array(content);
                Ok((ips, Vec::new()))
            },
        }
    }

    /// Looks an address up: first the exact set, then the blocks in order.
    pub fn check_ip(&self, ip: u128) -> (r: ThreatVerdict)
        requires
            self.wf(),
        ensures
            !self.spec_config().enabled ==> r == ThreatVerdict::Clear,
            self.spec_config().enabled ==> {
                let listed = self.spec_ips().contains(ip) || exists|i: int|
                    0 <= i < self.spec_cidrs().len() && (#[trigger] self.spec_cidrs()[i]).spec_contains(ip);
                if listed {
                    r == (ThreatVerdict::Matched {
                        block: self.spec_config().action == ThreatAction::Block,
                    })
                } else {
                    r == ThreatVerdict::Clear
                }
            },
    {
        if !self.config.enabled {
            return ThreatVerdict::Clear;
        }
        proof {
            assert(self.spec_config() == self.config);
            assert(self.spec_config().enabled);
        }
        let block = match self.config.action {
            ThreatAction::Block => true,
            ThreatAction::LogOnly => false,
        };
        proof {
            assert(block == (self.spec_config().action == ThreatAction::Block));
        }
        let mut i: usize = 0;
        while i < self.ip_list.len()
            invariant
                i <= self.spec_ips().len(),
                forall|j: int| 0 <= j < i ==> self.spec_ips()[j] != ip,
                self.spec_config().enabled,
                block == (self.spec_config().action == ThreatAction::Block),
            decreases self.spec_ips().len() - i,
        {
            if self.ip_list[i] == ip {
                proof {
                    assert(self.spec_ips()[i as int] == ip);
                    assert(self.spec_ips().contains(ip));
                }
                return ThreatVerdict::Matched { block };
            }
            i = i + 1;
        }
        proof {
            assert(!self.spec_ips().contains(ip));
        }
        let mut k: usize = 0;
        while k < self.cidr_list.len()
            invariant
                self.wf(),
                k <= self.spec_cidrs().len(),
                forall|j: int| 0 <= j < k ==> !(#[trigger] self.spec_cidrs()[j]).spec_contains(ip),
                self.spec_config().enabled,
                block == (self.spec_config().action == ThreatAction::Block),
            decreases self.spec_cidrs().len() - k,
        {
            if self.cidr_list[k].contains(ip) {
                proof {
                    assert((#[trigger] self.spec_cidrs()[k as int]).spec_contains(ip));
                }
                return ThreatVerdict::Matched { block };
            }
            k = k + 1;
        }
        ThreatVerdict::Clear
    }
}

/// Reads every line of a plain-address feed.
fn parse_ip_lines(content: &str) -> (r: Vec<u128>)
    ensures
        r@ == collect_ips(content@, Seq::empty()),
{
    let n = content.unicode_len();
    let mut out: Vec<u128> = Vec::new();
    let mut ls: usize = 0;
    let mut i: usize = 0;
    proof {
        assert(content@.subrange(0, n as int) =~= content@);
        assert(content@.subrange(0, 0) =~= Seq::<char>::empty());
    }
    while i < n
        invariant
            n == content@.len(),
            ls <= i <= n,
            collect_ips(content@, Seq::empty()) == out@ + collect_ips(
                content@.subrange(i as int, n as int),
                content@.subrange(ls as int, i as int),
            ),
        decreases n - i,
    {
        let c = content.get_char(i);
        let ghost rest = content@.subrange(i as int, n as int);
        let ghost cur = content@.subrange(ls as int, i as int);
        proof {
            assert(rest[0] == content@[i as int]);
            assert(rest.drop_first() =~= content@.subrange(i + 1, n as int));
        }
        if c == '\n' {
            proof {
                assert(collect_ips(rest, cur) == opt_ip(line_ip(cur)) + collect_ips(
                    rest.drop_first(),
                    Seq::empty(),
                ));
            }
            line_ip_into(content, ls, i, &mut out);
            proof {
                assert(content@.subrange(i + 1, i + 1) =~= Seq::<char>::empty());
            }
            ls = i + 1;
        } else {
            proof {
                assert(collect_ips(rest, cur) == collect_ips(rest.drop_first(), cur.push(
                    content@[i as int],
                )));
                assert(content@.subrange(ls as int, i + 1) =~= cur.push(content@[i as int]));
            }
        }
        i = i + 1;
    }
    proof {
        assert(content@.subrange(n as int, n as int) =~= Seq::<char>::empty());
    }
    line_ip_into(content, ls, n, &mut out);
    proof {
        assert(collect_ips(Seq::<char>::empty(), content@.subrange(ls as int, n as int)) == opt_ip(
            line_ip(content@.subrange(ls as int, n as int)),
        ));
    }
    out
}

/// Appends the address a line contributes, if any.
fn line_ip_into(content: &str, ls: usize, le: usize, out: &mut Vec<u128>)
    requires
        ls <= le,
        le <= content@.len(),
    ensures
        final(out)@ == old(out)@ + opt_ip(line_ip(content@.subrange(ls as int, le as int))),
{
    let ghost line = content@.subrange(ls as int, le as int);
    let (f, t) = trim_bounds(content, ls, le);
    if f == t {
        proof {
            assert(trim_seq(line).len() == 0);
            assert(final(out)@ =~= old(out)@ + opt_ip(line_ip(line)));
        }
        return ;
    }
    let h = content.get_char(f);
    proof {
        assert(content@.subrange(f as int, t as int)[0] == content@[f as int]);
        assert(trim_seq(line)[0] == content@[f as int]);
    }
    if h == '#' || h == ';' {
        proof {
            assert(final(out)@ =~= old(out)@ + opt_ip(line_ip(line)));
        }
        return ;
    }
    let sub = content.substring_char(f, t);
    proof {
        assert(sub@ == trim_seq(line));
    }
    let m = sub.unicode_len();
    match parse_ip(sub, 0, m) {
        None => {
            proof {
                assert(final(out)@ =~= old(out)@ + opt_ip(line_ip(line)));
            }
        },
        Some(ip) => {
            out.push(ip);
            proof {
                assert(out@ =~= old(out)@ + opt_ip(line_ip(line)));
            }
        },
    }
}

/// Reads every line of a CIDR feed.
fn parse_cidr_lines(content: &str) -> (r: Vec<Cidr>)
    ensures
        r@ == collect_cidrs(content@, Seq::empty()),
        forall|i: int| 0 <= i < r@.len() ==> (#[trigger] r@[i]).wf(),
{
    let n = content.unicode_len();
    let mut out: Vec<Cidr> = Vec::new();
    let mut ls: usize = 0;
    let mut i: usize = 0;
    proof {
        assert(content@.subrange(0, n as int) =~= content@);
        assert(content@.subrange(0, 0) =~= Seq::<char>::empty());
    }
    while i < n
        invariant
            n == content@.len(),
            ls <= i <= n,
            collect_cidrs(content@, Seq::empty()) == out@ + collect_cidrs(
                content@.subrange(i as int, n as int),
                content@.subrange(ls as int, i as int),
            ),
            forall|q: int| 0 <= q < out@.len() ==> (#[trigger] out@[q]).wf(),
        decreases n - i,
    {
        let c = content.get_char(i);
        let ghost rest = content@.subrange(i as int, n as int);
        let ghost cur = content@.subrange(ls as int, i as int);
        proof {
            assert(rest[0] == content@[i as int]);
            assert(rest.drop_first() =~= content@.subrange(i + 1, n as int));
        }
        if c == '\n' {
            proof {
                assert(collect_cidrs(rest, cur) == opt_cidr(line_cidr(cur)) + collect_cidrs(
                    rest.drop_first(),
                    Seq::empty(),
                ));
            }
            line_cidr_into(content, ls, i, &mut out);
            proof {
                assert(content@.subrange(i + 1, i + 1) =~= Seq::<char>::empty());
            }
            ls = i + 1;
        } else {
            proof {
                assert(collect_cidrs(rest, cur) == collect_cidrs(rest.drop_first(), cur.push(
                    content@[i as int],
                )));
                assert(content@.subrange(ls as int, i + 1) =~= cur.push(content@[i as int]));
            }
        }
        i = i + 1;
    }
    proof {
        assert(content@.subrange(n as int, n as int) =~= Seq::<char>::empty());
    }
    line_cidr_into(content, ls, n, &mut out);
    proof {
        assert(collect_cidrs(Seq::<char>::empty(), content@.subrange(ls as int, n as int))
            == opt_cidr(line_cidr(content@.subrange(ls as int, n as int))));
    }
    out
}

/// Appends the block a line contributes, if any.
fn line_cidr_into(content: &str, ls: usize, le: usize, out: &mut Vec<Cidr>)
    requires
        ls <= le,
        le <= content@.len(),
    ensures
        final(out)@ == old(out)@ + opt_cidr(line_cidr(content@.subrange(ls as int, le as int))),
        (forall|q: int| 0 <= q < old(out)@.len() ==> (#[trigger] old(out)@[q]).wf()) ==> forall|
            q: int,
        | 0 <= q < final(out)@.len() ==> (#[trigger] final(out)@[q]).wf(),
{
    let ghost line = content@.subrange(ls as int, le as int);
    let (f, t) = trim_bounds(content, ls, le);
    if f == t {
        proof {
            assert(trim_seq(line).len() == 0);
            assert(final(out)@ =~= old(out)@ + opt_cidr(line_cidr(line)));
        }
        return ;
    }
    let h = content.get_char(f);
    proof {
        assert(content@.subrange(f as int, t as int)[0] == content@[f as int]);
        assert(trim_seq(line)[0] == content@[f as int]);
    }
    if h == '#' || h == ';' {
        proof {
            assert(final(out)@ =~= old(out)@ + opt_cidr(line_cidr(line)));
        }
        return ;
    }
    let sub = content.substring_char(f, t);
    proof {
        assert(sub@ == trim_seq(line));
    }
    let m = sub.unicode_len();
    let semi = find_char(sub, 0, m, ';');
    let (f2, t2) = trim_bounds(sub, 0, semi);
    proof {
        assert(sub@.subrange(0, semi as int) =~= trim_seq(line).subrange(
            0,
            find_char_spec(trim_seq(line), 0, trim_seq(line).len() as int, ';'),
        ));
    }
    let field = sub.substring_char(f2, t2);
    proof {
        assert(field@ == trim_seq(trim_seq(line).subrange(
            0,
            find_char_spec(trim_seq(line), 0, trim_seq(line).len() as int, ';'),
        )));
    }
    let fm = field.unicode_len();
    match parse_cidr(field, 0, fm) {
        None => {
            proof {
                assert(final(out)@ =~= old(out)@ + opt_cidr(line_cidr(line)));
            }
        },
        Some(cd) => {
            out.push(cd);
            proof {
                assert(out@ =~= old(out)@ + opt_cidr(line_cidr(line)));
            }
        },
    }
}

} // verus!
