//! Per-connection session logic: the byte-stream line editor, the
//! renderings written to a client's terminal, and the authentication and
//! pty-attachment decisions.  Socket reads and writes stay with the binary;
//! it feeds bytes in and performs the returned effects.

use vstd::prelude::*;
use crate::ban::BanManager;
use vstd::string::StrSliceExecFns;
use vstd::string::StringExecFns;
use crate::hub::ChatServer;
use crate::text::dec_digits;
use crate::text::push_char;
use crate::text::push_dec;
use crate::text::trim_seq;
use crate::types::MessageEvent;
use crate::types::NoticeKind;

verus! {

/// Printable ASCII: what the line editor accepts and echoes.
pub open spec fn is_printable_ascii(c: char) -> bool {
    ' ' <= c && c <= '~'
}

/// What one input character asks for.
pub enum CharAction {
    /// A line was submitted: the trimmed buffer, which may be empty.
    Submitted(String),
    /// Ctrl-C: close the channel.
    CloseRequested,
    /// Backspace: whether a character was erased (and should be unechoed).
    Erased(bool),
    /// A printable character was appended and should be echoed.
    Appended(char),
    /// Any other control character: ignored.
    Ignored,
}

/// Feeds one character to the line editor.  Carriage return or newline
/// submits the trimmed buffer and clears it; Ctrl-C asks to close;
/// backspace or delete erases one character; printable ASCII is appended;
/// all other characters are ignored.
pub fn feed_char(buf: &mut String, c: char) -> (a: CharAction)
    ensures
        c == '\r' || c == '\n' ==> (a matches CharAction::Submitted(line) && line@ == trim_seq(
            old(buf)@,
        )) && final(buf)@.len() == 0,
        c == '\x03' ==> a == CharAction::CloseRequested && final(buf)@ == old(buf)@,
        (c == '\x7f' || c == '\x08') ==> (a == CharAction::Erased(old(buf)@.len() > 0)) && final(buf)@ == (if old(buf)@.len() > 0 {
            old(buf)@.drop_last()
        } else {
            old(buf)@
        }),
        !(c == '\r' || c == '\n' || c == '\x03' || c == '\x7f' || c == '\x08')
            && is_printable_ascii(c) ==> a == CharAction::Appended(c) && final(buf)@ == old(buf)@.push(c),
        !(c == '\r' || c == '\n' || c == '\x03' || c == '\x7f' || c == '\x08')
            && !is_printable_ascii(c) ==> a == CharAction::Ignored && final(buf)@ == old(buf)@,
{
    if c == '\r' || c == '\n' {
        let line = trimmed_copy(buf);
        crate::text::clear_string(buf);
        CharAction::Submitted(line)
    } else if c == '\x03' {
        CharAction::CloseRequested
    } else if c == '\x7f' || c == '\x08' {
        let popped = crate::text::pop_char(buf);
        CharAction::Erased(popped.is_some())
    } else if ' ' <= c && c <= '~' {
        push_char(buf, c);
        CharAction::Appended(c)
    } else {
        CharAction::Ignored
    }
}

/// The buffer with surrounding whitespace removed, as a fresh string.
fn trimmed_copy(s: &String) -> (r: String)
    ensures
        r@ == trim_seq(s@),
{
    let st = s.as_str();
    let n = st.unicode_len();
    let (f, t) = crate::text::trim_bounds(st, 0, n);
    proof {
        assert(st@.subrange(0, n as int) =~= st@);
    }
    let sub = st.substring_char(f, t);
    String::from_str(sub)
}

/// The chat rendering sent to each viewer.
pub open spec fn chat_render(nickname: Seq<char>, color: crate::types::Color, text: Seq<char>)
    -> Seq<char> {
    "\r\n\x1b["@ + dec_digits(color.spec_ansi() as nat) + "m["@ + nickname + "]\x1b[0m "@ + text
        + "\r\n"@
}

/// The join/leave rendering sent to each viewer.
pub open spec fn notice_render(nickname: Seq<char>, kind: NoticeKind) -> Seq<char> {
    "\r\n\x1b[90m* "@ + nickname + (if kind == NoticeKind::Joined {
        " joined"@
    } else {
        " left"@
    }) + "\x1b[0m\r\n"@
}

/// Renders a fan-out event for a client's terminal.  Operator records are
/// never rendered: a session writer drops them.
pub fn format_event(e: &MessageEvent) -> (r: Option<String>)
    ensures
        (r is None) == e.is_system(),
        match e {
            MessageEvent::Chat(m) => r matches Some(s) && s@ == chat_render(
                m.nickname@,
                m.color,
                m.text@,
            ),
            MessageEvent::Notice(n) => r matches Some(s) && s@ == notice_render(
                n.nickname@,
                n.kind,
            ),
            MessageEvent::System(_) => r is None,
        },
{
    match e {
        MessageEvent::Chat(m) => {
            let mut s = String::from_str("\r\n\x1b[");
            push_dec(&mut s, m.color.to_ansi() as u64);
            s.append("m[");
            s.append(m.nickname.as_str());
            s.append("]\x1b[0m ");
            s.append(m.text.as_str());
            s.append("\r\n");
            proof {
                assert(s@ =~= chat_render(m.nickname@, m.color, m.text@));
            }
            Some(s)
        },
        MessageEvent::Notice(n) => {
            let mut s = String::from_str("\r\n\x1b[90m* ");
            s.append(n.nickname.as_str());
            match n.kind {
                NoticeKind::Joined => s.append(" joined"),
                NoticeKind::Left => s.append(" left"),
            }
            s.append("\x1b[0m\r\n");
            proof {
                assert(s@ =~= notice_render(n.nickname@, n.kind));
            }
            Some(s)
        },
        MessageEvent::System(_) => None,
    }
}

/// The welcome banner shown on pty attachment.
pub open spec fn welcome_render(nickname: Seq<char>) -> Seq<char> {
    "\r\n\x1b[1;32mWelcome to SSH Chat, "@ + nickname + "!\x1b[0m\r\n"@
}

pub fn welcome_banner(nickname: &str) -> (r: String)
    ensures
        r@ == welcome_render(nickname@),
{
    let mut s = String::from_str("\r\n\x1b[1;32mWelcome to SSH Chat, ");
    s.append(nickname);
    s.append("!\x1b[0m\r\n");
    proof {
        assert(s@ =~= welcome_render(nickname@));
    }
    s
}

/// Whether an authentication attempt is accepted: any credential passes
/// unless the address holds an active ban.
pub fn auth_decision(bans: &BanManager, ip: u128, now_ms: u64) -> (accept: bool)
    requires
        bans.wf(),
    ensures
        accept == !bans.spec_is_banned(ip, now_ms),
{
    !bans.is_banned(ip, now_ms)
}

/// What pty attachment decided.
pub enum PtyOutcome {
    /// The address is banned: send this line and close.
    Banned(String),
    /// Registered: the client identifier and the welcome banner to send.
    Registered { client_id: u128, welcome: String },
    /// The hub refused (full or nickname taken): send this line and close.
    Refused(String),
}

/// Attaches a session to the hub on its first pty request: the ban list is
/// checked again, then the client is registered under its nickname.  On
/// success the fan-out gains the join notice and the caller sends the
/// welcome banner and subscribes the session.
pub fn pty_attach(hub: &mut ChatServer, nickname: &str, ip: u128, now_ms: u64) -> (r: PtyOutcome)
    requires
        old(hub).wf(),
    ensures
        final(hub).wf(),
        hub_banned(old(hub), ip, now_ms) ==> r is Banned && final(hub).spec_clients() == old(hub).spec_clients(),
        !hub_banned(old(hub), ip, now_ms) ==> match r {
            PtyOutcome::Registered { client_id, welcome } => {
                &&& welcome@ == welcome_render(nickname@)
                &&& final(hub).spec_clients().len() == old(hub).spec_clients().len() + 1
                &&& final(hub).spec_clients().last().nickname@ == nickname@
                &&& final(hub).spec_clients().last().ip == ip
                &&& final(hub).spec_clients().last().id == client_id
                &&& final(hub).spec_stats() == (crate::types::Stats {
                    total_connections: crate::types::sat_u64(
                        old(hub).spec_stats().total_connections + 1,
                    ),
                    ..old(hub).spec_stats()
                })
                &&& final(hub).spec_fanout().len() == old(hub).spec_fanout().len() + 1
                &&& (final(hub).spec_fanout().last() matches MessageEvent::Notice(n) && n.kind
                    == NoticeKind::Joined && n.nickname@ == nickname@ && n.ip == ip)
            },
            PtyOutcome::Banned(_) => false,
            // A refusal has a cause: the server is full, the nickname is
            // taken, or the freshly drawn identifier clashed with a live
            // client's (so the registry was not empty).
            PtyOutcome::Refused(_) => {
                &&& final(hub).spec_clients() == old(hub).spec_clients()
                &&& final(hub).spec_stats() == old(hub).spec_stats()
                &&& (old(hub).spec_clients().len() >= old(hub).spec_max_clients() || old(
                    hub,
                ).spec_nickname_taken(nickname@) || old(hub).spec_clients().len() > 0)
            },
        },
        // Registration is owed outright where nothing can clash.
        !hub_banned(old(hub), ip, now_ms) && old(hub).spec_clients().len() == 0 && old(
            hub,
        ).spec_max_clients() > 0 ==> r is Registered,
{
    if !auth_decision(hub.ban_manager(), ip, now_ms) {
        return PtyOutcome::Banned(String::from_str("\r\nYou have been banned from this server.\r\n"));
    }
    let nick = String::from_str(nickname);
    match hub.add_client(nick, ip, now_ms) {
        Ok((client_id, _c)) => {
            let welcome = welcome_banner(nickname);
            PtyOutcome::Registered { client_id, welcome }
        },
        Err(e) => {
            let _ = e;
            PtyOutcome::Refused(String::from_str("\r\nError: the server cannot take you now\r\n"))
        },
    }
}

/// An active ban on `ip` as the hub's ban list stands.
pub open spec fn hub_banned(hub: &ChatServer, ip: u128, now_ms: u64) -> bool {
    hub.spec_bans().spec_is_banned(ip, now_ms)
}

/// An effect the session asks its connection to perform.
pub enum SessionEffect {
    /// Write this text to the client's channel.
    Send(String),
    /// Close the channel.
    Close,
}

/// A session effect at the model level.
pub enum EffModel {
    Send(Seq<char>),
    Close,
}

/// The model view of an effect list.
pub open spec fn effects_view(v: Seq<SessionEffect>) -> Seq<EffModel> {
    v.map_values(
        |e: SessionEffect|
            match e {
                SessionEffect::Send(s) => EffModel::Send(s@),
                SessionEffect::Close => EffModel::Close,
            },
    )
}

/// The error line echoed when a submitted line is not delivered.
pub open spec fn undelivered_line() -> Seq<char> {
    "\r\nError: the message was not delivered\r\n"@
}

/// What one burst of characters does to the line editor: the final buffer,
/// the non-blank lines submitted (delivered only when the client is live),
/// the effects to perform in order, and whether the channel is to close.
/// Ctrl-C stops the walk; the rest of the burst is discarded.
pub struct EditorFold {
    pub buf: Seq<char>,
    pub subs: Seq<Seq<char>>,
    pub effs: Seq<EffModel>,
    pub closed: bool,
}

pub open spec fn editor_fold(buf: Seq<char>, cs: Seq<char>, live: bool) -> EditorFold
    decreases cs.len(),
{
    if cs.len() == 0 {
        EditorFold { buf, subs: Seq::empty(), effs: Seq::empty(), closed: false }
    } else {
        let c = cs[0];
        if c == '\r' || c == '\n' {
            let line = trim_seq(buf);
            let rest = editor_fold(Seq::empty(), cs.drop_first(), live);
            if line.len() > 0 && live {
                EditorFold {
                    buf: rest.buf,
                    subs: seq![line] + rest.subs,
                    effs: seq![EffModel::Send("\r\n"@)] + rest.effs,
                    closed: rest.closed,
                }
            } else if line.len() > 0 {
                EditorFold {
                    buf: rest.buf,
                    subs: rest.subs,
                    effs: seq![EffModel::Send(undelivered_line()), EffModel::Send("\r\n"@)]
                        + rest.effs,
                    closed: rest.closed,
                }
            } else {
                EditorFold {
                    buf: rest.buf,
                    subs: rest.subs,
                    effs: seq![EffModel::Send("\r\n"@)] + rest.effs,
                    closed: rest.closed,
                }
            }
        } else if c == '\x03' {
            EditorFold { buf, subs: Seq::empty(), effs: seq![EffModel::Close], closed: true }
        } else if c == '\x7f' || c == '\x08' {
            if buf.len() > 0 {
                let rest = editor_fold(buf.drop_last(), cs.drop_first(), live);
                EditorFold {
                    buf: rest.buf,
                    subs: rest.subs,
                    effs: seq![EffModel::Send("\x08 \x08"@)] + rest.effs,
                    closed: rest.closed,
                }
            } else {
                editor_fold(buf, cs.drop_first(), live)
            }
        } else if is_printable_ascii(c) {
            let rest = editor_fold(buf.push(c), cs.drop_first(), live);
            EditorFold {
                buf: rest.buf,
                subs: rest.subs,
                effs: seq![EffModel::Send(seq![c])] + rest.effs,
                closed: rest.closed,
            }
        } else {
            editor_fold(buf, cs.drop_first(), live)
        }
    }
}

/// The model view of an effect list grows one model effect per push.
proof fn lemma_effects_view_push(v: Seq<SessionEffect>, e: SessionEffect)
    ensures
        effects_view(v.push(e)) =~= effects_view(v).push(
            match e {
                SessionEffect::Send(s) => EffModel::Send(s@),
                SessionEffect::Close => EffModel::Close,
            },
        ),
{
}

/// Counting one more message saturates like counting them all at once.
proof fn lemma_sat_step(base: u64, q: nat)
    ensures
        crate::types::sat_u64((crate::types::sat_u64(base + q) + 1) as int)
            == crate::types::sat_u64(base + q + 1),
{
}

/// Feeds a burst of decoded characters through the line editor: the final
/// buffer, the returned effects and the delivered lines are exactly what
/// the walk [`editor_fold`] describes.  Each submitted non-blank line of a
/// live client appends exactly one chat line with that text under the
/// client's nickname and color; for an unknown client nothing reaches the
/// fan-out and an error line is echoed instead.  The client list, operator
/// log and ban list are untouched.
pub fn handle_data(
    hub: &mut ChatServer,
    buf: &mut String,
    client_id: u128,
    data: &str,
    now_ms: u64,
) -> (effects: Vec<SessionEffect>)
    requires
        old(hub).wf(),
    ensures
        final(hub).wf(),
        final(hub).spec_clients() == old(hub).spec_clients(),
        final(hub).spec_oplog() == old(hub).spec_oplog(),
        final(hub).spec_bans()@ == old(hub).spec_bans()@,
        forall|i: int|
            0 <= i < old(hub).spec_fanout().len() ==> final(hub).spec_fanout()[i] == #[trigger] old(hub).spec_fanout()[i],
        ({
            let fold = editor_fold(old(buf)@, data@, old(hub).spec_has_client(client_id));
            &&& final(buf)@ == fold.buf
            &&& effects_view(effects@) == fold.effs
            &&& final(hub).spec_stats() == (crate::types::Stats {
                total_messages: crate::types::sat_u64(
                    old(hub).spec_stats().total_messages + fold.subs.len(),
                ),
                ..old(hub).spec_stats()
            })
            &&& final(hub).spec_fanout().len() == old(hub).spec_fanout().len() + fold.subs.len()
            &&& (old(hub).spec_has_client(client_id) ==> exists|k: int|
                {
                    &&& 0 <= k < old(hub).spec_clients().len()
                    &&& (#[trigger] old(hub).spec_clients()[k]).id == client_id
                    &&& forall|q: int|
                        0 <= q < fold.subs.len() ==> ((#[trigger] final(hub).spec_fanout()[old(hub).spec_fanout().len() + q]) matches MessageEvent::Chat(m) && m.text@
                            == fold.subs[q] && m.nickname@ == old(hub).spec_clients()[k].nickname@
                            && m.color == old(hub).spec_clients()[k].color && m.ip == old(hub).spec_clients()[k].ip && m.timestamp_ms == now_ms)
                })
            &&& (!old(hub).spec_has_client(client_id) ==> final(hub).spec_fanout() == old(hub).spec_fanout())
        }),
{
    let ghost live = old(hub).spec_has_client(client_id);
    let ghost obuf = old(buf)@;
    let ghost ofan = old(hub).spec_fanout();
    let ghost ostats = old(hub).spec_stats();
    let ghost total = editor_fold(old(buf)@, data@, live);
    let n = data.unicode_len();
    let mut effects: Vec<SessionEffect> = Vec::new();
    let mut i: usize = 0;
    let ghost mut subs: Seq<Seq<char>> = Seq::empty();
    proof {
        assert(data@.subrange(0, n as int) =~= data@);
        assert(effects_view(effects@) =~= Seq::<EffModel>::empty());
        let rest0 = editor_fold(buf@, data@, live);
        assert(subs + rest0.subs =~= rest0.subs);
        assert(effects_view(effects@) + rest0.effs =~= rest0.effs);
        assert(total == (EditorFold {
            buf: rest0.buf,
            subs: subs + rest0.subs,
            effs: effects_view(effects@) + rest0.effs,
            closed: rest0.closed,
        }));
    }
    while i < n
        invariant
            n == data@.len(),
            i <= n,
            hub.wf(),
            live == old(hub).spec_has_client(client_id),
            total == editor_fold(obuf, data@, live),
            obuf == old(buf)@,
            hub.spec_clients() == old(hub).spec_clients(),
            hub.spec_oplog() == old(hub).spec_oplog(),
            hub.spec_bans()@ == old(hub).spec_bans()@,
            ofan == old(hub).spec_fanout(),
            ostats == old(hub).spec_stats(),
            ({
                let rest = editor_fold(buf@, data@.subrange(i as int, n as int), live);
                total == (EditorFold {
                    buf: rest.buf,
                    subs: subs + rest.subs,
                    effs: effects_view(effects@) + rest.effs,
                    closed: rest.closed,
                })
            }),
            hub.spec_stats() == (crate::types::Stats {
                total_messages: crate::types::sat_u64(ostats.total_messages + subs.len()),
                ..ostats
            }),
            hub.spec_fanout().len() == ofan.len() + subs.len(),
            forall|q: int| 0 <= q < ofan.len() ==> hub.spec_fanout()[q] == #[trigger] ofan[q],
            live ==> exists|k: int|
                {
                    &&& 0 <= k < old(hub).spec_clients().len()
                    &&& (#[trigger] old(hub).spec_clients()[k]).id == client_id
                    &&& forall|q: int|
                        0 <= q < subs.len() ==> ((#[trigger] hub.spec_fanout()[ofan.len() + q]) matches MessageEvent::Chat(m) && m.text@ == subs[q] && m.nickname@
                            == old(hub).spec_clients()[k].nickname@ && m.color == old(hub).spec_clients()[k].color && m.ip == old(hub).spec_clients()[k].ip
                            && m.timestamp_ms == now_ms)
                },
            !live ==> subs.len() == 0 && hub.spec_fanout() == ofan,
        decreases n - i,
    {
        let c = data.get_char(i);
        let ghost rest_cs = data@.subrange(i as int, n as int);
        let ghost next_cs = data@.subrange(i + 1, n as int);
        let ghost prebuf = buf@;
        let ghost rest_here = editor_fold(prebuf, rest_cs, live);
        proof {
            assert(rest_cs[0] == data@[i as int]);
            assert(rest_cs.drop_first() =~= next_cs);
        }
        match feed_char(buf, c) {
            CharAction::Submitted(line) => {
                let ghost gline = line@;
                let ghost rest_next = editor_fold(Seq::<char>::empty(), next_cs, live);
                let ghost entry_subs = subs;
                let ghost entry_eff = effects@;
                proof {
                    assert(gline == trim_seq(prebuf));
                    assert(buf@ =~= Seq::<char>::empty());
                }
                if !line.as_str().is_empty() {
                    let ghost prefan = hub.spec_fanout();
                    let ghost presubs = subs;
                    let ghost prestats = hub.spec_stats();
                    match hub.broadcast_chat(client_id, line, now_ms) {
                        Ok(()) => {
                            proof {
                                assert(live);
                                subs = subs.push(gline);
                                lemma_sat_step(ostats.total_messages, presubs.len());
                                // The one client with this identifier is the
                                // one the broadcast spoke of.
                                let k = choose|k: int|
                                    0 <= k < old(hub).spec_clients().len() && (#[trigger] old(hub).spec_clients()[k]).id == client_id && forall|q: int|
                                        0 <= q < presubs.len() ==> ((#[trigger] prefan[ofan.len() + q]) matches MessageEvent::Chat(m) && m.text@ == presubs[q]
                                            && m.nickname@ == old(hub).spec_clients()[k].nickname@
                                            && m.color == old(hub).spec_clients()[k].color
                                            && m.ip == old(hub).spec_clients()[k].ip
                                            && m.timestamp_ms == now_ms);
                                let k2 = choose|k2: int|
                                    {
                                        &&& 0 <= k2 < old(hub).spec_clients().len()
                                        &&& (#[trigger] old(hub).spec_clients()[k2]).id == client_id
                                        &&& hub.spec_fanout().len() == prefan.len() + 1
                                        &&& forall|q: int|
                                            0 <= q < prefan.len() ==> hub.spec_fanout()[q]
                                                == #[trigger] prefan[q]
                                        &&& (hub.spec_fanout().last() matches MessageEvent::Chat(m)
                                            && m.text@ == gline && m.nickname@ == old(hub).spec_clients()[k2].nickname@ && m.color == old(hub).spec_clients()[k2].color && m.ip == old(hub).spec_clients()[k2].ip && m.timestamp_ms == now_ms)
                                    };
                                if k2 != k {
                                    assert(old(hub).spec_clients()[k].id != old(hub).spec_clients()[k2].id);
                                }
                                assert forall|q: int| 0 <= q < subs.len() implies ((
                                #[trigger] hub.spec_fanout()[ofan.len() + q])
                                    matches MessageEvent::Chat(m) && m.text@ == subs[q]
                                    && m.nickname@ == old(hub).spec_clients()[k].nickname@
                                    && m.color == old(hub).spec_clients()[k].color && m.ip == old(hub).spec_clients()[k].ip && m.timestamp_ms == now_ms) by {
                                    if q < presubs.len() {
                                        assert(hub.spec_fanout()[ofan.len() + q] == prefan[
                                            ofan.len() + q]);
                                        assert(subs[q] == presubs[q]);
                                    } else {
                                        assert(ofan.len() + q == hub.spec_fanout().len() - 1);
                                        assert(hub.spec_fanout()[ofan.len() + q]
                                            == hub.spec_fanout().last());
                                        assert(subs[q] == gline);
                                    }
                                }
                            }
                        },
                        Err(_) => {
                            proof {
                                assert(!live);
                            }
                            let e = SessionEffect::Send(
                                String::from_str("\r\nError: the message was not delivered\r\n"),
                            );
                            let ghost ge = e;
                            let ghost preeff = effects@;
                            effects.push(e);
                            proof {
                                lemma_effects_view_push(preeff, ge);
                            }
                        },
                    }
                }
                let e2 = SessionEffect::Send(String::from_str("\r\n"));
                let ghost ge2 = e2;
                let ghost preeff2 = effects@;
                effects.push(e2);
                proof {
                    lemma_effects_view_push(preeff2, ge2);
                    // One unfolding of the walk at this newline, by case.
                    if gline.len() > 0 && live {
                        assert(rest_here == (EditorFold {
                            buf: rest_next.buf,
                            subs: seq![gline] + rest_next.subs,
                            effs: seq![EffModel::Send("\r\n"@)] + rest_next.effs,
                            closed: rest_next.closed,
                        }));
                        assert(preeff2 == entry_eff);
                        assert(subs =~= entry_subs.push(gline));
                        assert(entry_subs + (seq![gline] + rest_next.subs) =~= subs
                            + rest_next.subs);
                        assert(effects_view(entry_eff) + (seq![EffModel::Send("\r\n"@)]
                            + rest_next.effs) =~= effects_view(effects@) + rest_next.effs);
                    } else if gline.len() > 0 {
                        assert(rest_here == (EditorFold {
                            buf: rest_next.buf,
                            subs: rest_next.subs,
                            effs: seq![EffModel::Send(undelivered_line()), EffModel::Send("\r\n"@)]
                                + rest_next.effs,
                            closed: rest_next.closed,
                        }));
                        assert(subs == entry_subs);
                        assert(preeff2 =~= entry_eff.push(
                            SessionEffect::Send(preeff2.last()->Send_0),
                        ));
                        assert(effects_view(entry_eff) + (seq![
                            EffModel::Send(undelivered_line()),
                            EffModel::Send("\r\n"@),
                        ] + rest_next.effs) =~= effects_view(effects@) + rest_next.effs);
                    } else {
                        assert(rest_here == (EditorFold {
                            buf: rest_next.buf,
                            subs: rest_next.subs,
                            effs: seq![EffModel::Send("\r\n"@)] + rest_next.effs,
                            closed: rest_next.closed,
                        }));
                        assert(subs == entry_subs);
                        assert(preeff2 == entry_eff);
                        assert(effects_view(entry_eff) + (seq![EffModel::Send("\r\n"@)]
                            + rest_next.effs) =~= effects_view(effects@) + rest_next.effs);
                    }
                    assert(editor_fold(buf@, next_cs, live) == rest_next);
                    assert(total == (EditorFold {
                        buf: rest_next.buf,
                        subs: subs + rest_next.subs,
                        effs: effects_view(effects@) + rest_next.effs,
                        closed: rest_next.closed,
                    }));
                }
            },
            CharAction::CloseRequested => {
                let ghost preeff = effects@;
                effects.push(SessionEffect::Close);
                proof {
                    lemma_effects_view_push(preeff, SessionEffect::Close);
                    assert(rest_here == (EditorFold {
                        buf: prebuf,
                        subs: Seq::<Seq<char>>::empty(),
                        effs: seq![EffModel::Close],
                        closed: true,
                    }));
                    assert(subs + Seq::<Seq<char>>::empty() =~= subs);
                    assert(effects_view(preeff) + seq![EffModel::Close] =~= effects_view(effects@));
                    assert(effects_view(effects@) =~= effects_view(preeff)
                        + rest_here.effs);
                    assert(total.subs =~= subs);
                    assert(total.effs =~= effects_view(effects@));
                }
                return effects;
            },
            CharAction::Erased(was) => {
                if was {
                    let e = SessionEffect::Send(String::from_str("\x08 \x08"));
                    let ghost ge = e;
                    let ghost preeff = effects@;
                    effects.push(e);
                    proof {
                        lemma_effects_view_push(preeff, ge);
                        let rest_next = editor_fold(buf@, next_cs, live);
                        assert(rest_here == (EditorFold {
                            buf: rest_next.buf,
                            subs: rest_next.subs,
                            effs: seq![EffModel::Send("\x08 \x08"@)] + rest_next.effs,
                            closed: rest_next.closed,
                        }));
                        assert(effects_view(preeff) + (seq![EffModel::Send("\x08 \x08"@)]
                            + rest_next.effs) =~= effects_view(effects@) + rest_next.effs);
                        assert(total == (EditorFold {
                            buf: rest_next.buf,
                            subs: subs + rest_next.subs,
                            effs: effects_view(effects@) + rest_next.effs,
                            closed: rest_next.closed,
                        }));
                    }
                } else {
                    proof {
                        assert(buf@ == prebuf);
                        assert(rest_here == editor_fold(buf@, next_cs, live));
                    }
                }
            },
            CharAction::Appended(ch) => {
                let mut echo = String::new();
                push_char(&mut echo, ch);
                proof {
                    assert(echo@ =~= seq![ch]);
                }
                let e = SessionEffect::Send(echo);
                let ghost ge = e;
                let ghost preeff = effects@;
                effects.push(e);
                proof {
                    lemma_effects_view_push(preeff, ge);
                    let rest_next = editor_fold(buf@, next_cs, live);
                    assert(rest_here == (EditorFold {
                        buf: rest_next.buf,
                        subs: rest_next.subs,
                        effs: seq![EffModel::Send(seq![ch])] + rest_next.effs,
                        closed: rest_next.closed,
                    }));
                    assert(effects_view(preeff) + (seq![EffModel::Send(seq![ch])]
                        + rest_next.effs) =~= effects_view(effects@) + rest_next.effs);
                    assert(total == (EditorFold {
                        buf: rest_next.buf,
                        subs: subs + rest_next.subs,
                        effs: effects_view(effects@) + rest_next.effs,
                        closed: rest_next.closed,
                    }));
                }
            },
            CharAction::Ignored => {
                proof {
                    assert(buf@ == prebuf);
                    assert(rest_here == editor_fold(buf@, next_cs, live));
                }
            },
        }
        i = i + 1;
    }
    proof {
        assert(data@.subrange(n as int, n as int) =~= Seq::<char>::empty());
        let restf = editor_fold(buf@, Seq::<char>::empty(), live);
        assert(restf.subs =~= Seq::<Seq<char>>::empty());
        assert(restf.effs =~= Seq::<EffModel>::empty());
        assert(subs + restf.subs =~= subs);
        assert(effects_view(effects@) + restf.effs =~= effects_view(effects@));
        assert(total.subs =~= subs);
        assert(total.effs =~= effects_view(effects@));
        assert(total.buf == buf@);
    }
    effects
}

} // verus!
