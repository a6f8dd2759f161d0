//! The hub: the registry of live clients, the server statistics, and the
//! two outbound streams.
//!
//! Chat lines and join/leave notices are queued on the fan-out, which every
//! connected session drains; operator-only `System` records are queued on
//! the operator log.  The hub's invariant keeps the two apart: no `System`
//! record ever stands on the fan-out, and live clients never share a
//! nickname or an identifier.  The caller performs the actual channel
//! sends, handing over what [`ChatServer::take_fanout`] and
//! [`ChatServer::take_oplog`] return.

use vstd::prelude::*;
use crate::ban::BanManager;
use crate::types::ChatError;
use crate::types::ChatMessage;
use crate::types::Color;
use crate::types::LogLevel;
use crate::types::MessageEvent;
use crate::types::NoticeKind;
use crate::types::NoticeMessage;
use crate::types::Stats;
use crate::types::SystemLog;

verus! {

/// A connected client.
pub struct Client {
    pub id: u128,
    pub nickname: String,
    pub ip: u128,
    pub color: Color,
    pub connected_at_ms: u64,
}

impl Client {
    /// A field-for-field copy.
    pub fn duplicate(&self) -> (r: Client)
        ensures
            r == *self,
    {
        Client {
            id: self.id,
            nickname: self.nickname.clone(),
            ip: self.ip,
            color: self.color,
            connected_at_ms: self.connected_at_ms,
        }
    }
}

/// No two clients share a nickname, and none share an identifier.
pub open spec fn clients_distinct(s: Seq<Client>) -> bool {
    &&& forall|i: int, j: int|
        0 <= i < j < s.len() ==> (#[trigger] s[i]).nickname@ != (#[trigger] s[j]).nickname@
    &&& forall|i: int, j: int|
        0 <= i < j < s.len() ==> (#[trigger] s[i]).id != (#[trigger] s[j]).id
}

/// Only chat lines and notices belong on the fan-out.
pub open spec fn fanout_clean(s: Seq<MessageEvent>) -> bool {
    forall|i: int| 0 <= i < s.len() ==> !(#[trigger] s[i]).is_system()
}

/// The hub.
pub struct ChatServer {
    max_clients: usize,
    clients: Vec<Client>,
    stats: Stats,
    bans: BanManager,
    fanout: Vec<MessageEvent>,
    oplog: Vec<SystemLog>,
}

impl ChatServer {
    pub closed spec fn spec_clients(&self) -> Seq<Client> {
        self.clients@
    }

    pub closed spec fn spec_stats(&self) -> Stats {
        self.stats
    }

    pub closed spec fn spec_bans(&self) -> &BanManager {
        &self.bans
    }

    pub closed spec fn spec_max_clients(&self) -> usize {
        self.max_clients
    }

    pub closed spec fn spec_fanout(&self) -> Seq<MessageEvent> {
        self.fanout@
    }

    pub closed spec fn spec_oplog(&self) -> Seq<SystemLog> {
        self.oplog@
    }

    /// The hub's invariant: distinct live clients, a well-formed ban list,
    /// and a fan-out free of operator records.
    pub open spec fn wf(&self) -> bool {
        &&& clients_distinct(self.spec_clients())
        &&& self.spec_bans().wf()
        &&& fanout_clean(self.spec_fanout())
    }

    /// A live client with this identifier exists.
    pub open spec fn spec_has_client(&self, id: u128) -> bool {
        exists|i: int| 0 <= i < self.spec_clients().len() && (#[trigger] self.spec_clients()[i]).id == id
    }

    /// A live client with this nickname exists.
    pub open spec fn spec_nickname_taken(&self, nickname: Seq<char>) -> bool {
        exists|i: int|
            0 <= i < self.spec_clients().len() && (#[trigger] self.spec_clients()[i]).nickname@
                == nickname
    }

    /// A live client from this address exists.
    pub open spec fn spec_has_ip(&self, ip: u128) -> bool {
        exists|i: int| 0 <= i < self.spec_clients().len() && (#[trigger] self.spec_clients()[i]).ip == ip
    }

    pub fn new(max_clients: usize, ban_manager: BanManager) -> (r: ChatServer)
        requires
            ban_manager.wf(),
        ensures
            r.wf(),
            r.spec_clients().len() == 0,
            r.spec_fanout().len() == 0,
            r.spec_oplog().len() == 0,
            r.spec_stats() == (Stats {
                total_messages: 0,
                total_connections: 0,
                total_kicks: 0,
                total_bans: 0,
            }),
            r.spec_max_clients() == max_clients,
            r.spec_bans()@ == ban_manager@,
    {
        ChatServer {
            max_clients,
            clients: Vec::new(),
            stats: Stats::new(),
            bans: ban_manager,
            fanout: Vec::new(),
            oplog: Vec::new(),
        }
    }

    /// The position of the client with `id`, if connected.
    fn find_by_id(&self, id: u128) -> (r: Option<usize>)
        ensures
            match r {
                Some(k) => k < self.spec_clients().len() && self.spec_clients()[k as int].id == id,
                None => !self.spec_has_client(id),
            },
    {
        let mut i: usize = 0;
        while i < self.clients.len()
            invariant
                i <= self.spec_clients().len(),
                forall|j: int| 0 <= j < i ==> (#[trigger] self.spec_clients()[j]).id != id,
            decreases self.spec_clients().len() - i,
        {
            if self.clients[i].id == id {
                return Some(i);
            }
            i = i + 1;
        }
        None
    }

    /// The position of the client called `nickname`, if connected.
    fn find_by_nickname(&self, nickname: &str) -> (r: Option<usize>)
        ensures
            match r {
                Some(k) => k < self.spec_clients().len() && self.spec_clients()[k as int].nickname@
                    == nickname@,
                None => !self.spec_nickname_taken(nickname@),
            },
    {
        let mut i: usize = 0;
        while i < self.clients.len()
            invariant
                i <= self.spec_clients().len(),
                forall|j: int| 0 <= j < i ==> (#[trigger] self.spec_clients()[j]).nickname@ != nickname@,
            decreases self.spec_clients().len() - i,
        {
            if crate::text::str_eq(self.clients[i].nickname.as_str(), nickname) {
                return Some(i);
            }
            i = i + 1;
        }
        None
    }

    /// The position of some client from `ip`, if one is connected.
    fn find_by_ip(&self, ip: u128) -> (r: Option<usize>)
        ensures
            match r {
                Some(k) => k < self.spec_clients().len() && self.spec_clients()[k as int].ip == ip
                    && forall|j: int| 0 <= j < k ==> (#[trigger] self.spec_clients()[j]).ip != ip,
                None => !self.spec_has_ip(ip),
            },
    {
        let mut i: usize = 0;
        while i < self.clients.len()
            invariant
                i <= self.spec_clients().len(),
                forall|j: int| 0 <= j < i ==> (#[trigger] self.spec_clients()[j]).ip != ip,
            decreases self.spec_clients().len() - i,
        {
            if self.clients[i].ip == ip {
                return Some(i);
            }
            i = i + 1;
        }
        None
    }

    /// Registers a client under a caller-chosen identifier and color.
    /// Succeeds exactly when the server is not full and neither the
    /// nickname nor the identifier is taken; then a join notice goes to the
    /// fan-out and an informational record to the operator log.
    pub fn add_client_with_id(
        &mut self,
        id: u128,
        color: Color,
        nickname: String,
        ip: u128,
        now_ms: u64,
    ) -> (r: Result<Client, ChatError>)
        requires
            old(self).wf(),
        ensures
            final(self).wf(),
            final(self).spec_max_clients() == old(self).spec_max_clients(),
            final(self).spec_bans()@ == old(self).spec_bans()@,
            (r is Ok) == (old(self).spec_clients().len() < old(self).spec_max_clients() && !old(self).spec_nickname_taken(nickname@) && !old(self).spec_has_client(id)),
            old(self).spec_clients().len() >= old(self).spec_max_clients() ==> r == Err::<Client, ChatError>(ChatError::ServerFull(old(self).spec_max_clients())),
            !(r is Ok) ==> final(self).spec_clients() == old(self).spec_clients() && final(self).spec_fanout() == old(self).spec_fanout() && final(self).spec_oplog() == old(self).spec_oplog() && final(self).spec_stats() == old(self).spec_stats(),
            r matches Ok(c) ==> {
                &&& c.id == id
                &&& c.nickname@ == nickname@
                &&& c.ip == ip
                &&& c.color == color
                &&& c.connected_at_ms == now_ms
                &&& final(self).spec_clients() =~= old(self).spec_clients().push(c)
                &&& final(self).spec_stats() == (Stats {
                    total_connections: crate::types::sat_u64(
                        old(self).spec_stats().total_connections + 1,
                    ),
                    ..old(self).spec_stats()
                })
                &&& final(self).spec_fanout().len() == old(self).spec_fanout().len() + 1
                &&& forall|i: int|
                    0 <= i < old(self).spec_fanout().len() ==> final(self).spec_fanout()[i]
                        == #[trigger] old(self).spec_fanout()[i]
                &&& (final(self).spec_fanout().last() matches MessageEvent::Notice(n) && n.kind
                    == NoticeKind::Joined && n.nickname@ == nickname@ && n.ip == ip
                    && n.timestamp_ms == now_ms)
                &&& final(self).spec_oplog().len() == old(self).spec_oplog().len() + 1
                &&& forall|i: int|
                    0 <= i < old(self).spec_oplog().len() ==> final(self).spec_oplog()[i]
                        == #[trigger] old(self).spec_oplog()[i]
                &&& final(self).spec_oplog().last().level == LogLevel::Info
                &&& final(self).spec_oplog().last().ip == Some(ip)
                &&& final(self).spec_oplog().last().action is None
                &&& final(self).spec_oplog().last().timestamp_ms == now_ms
            },
    {
        if self.clients.len() >= self.max_clients {
            return Err(ChatError::ServerFull(self.max_clients));
        }
        if let Some(_k) = self.find_by_nickname(nickname.as_str()) {
            return Err(ChatError::Other(String::from_str("nickname already taken")));
        }
        if let Some(_k) = self.find_by_id(id) {
            return Err(ChatError::Other(String::from_str("identifier already in use")));
        }
        let ghost olds = self.spec_clients();
        let client = Client { id, nickname: nickname.clone(), ip, color, connected_at_ms: now_ms };
        let ret = client.duplicate();
        self.clients.push(client);
        proof {
            assert forall|i: int, j: int|
                0 <= i < j < self.spec_clients().len() implies (#[trigger] self.spec_clients()[i]).nickname@
                != (#[trigger] self.spec_clients()[j]).nickname@ by {
                if j < olds.len() {
                    assert(olds[i].nickname@ != olds[j].nickname@);
                } else {
                    assert(self.spec_clients()[j].nickname@ == nickname@);
                    assert(olds[i].nickname@ != nickname@);
                }
            }
            assert forall|i: int, j: int|
                0 <= i < j < self.spec_clients().len() implies (#[trigger] self.spec_clients()[i]).id
                != (#[trigger] self.spec_clients()[j]).id by {
                if j < olds.len() {
                    assert(olds[i].id != olds[j].id);
                } else {
                    assert(self.spec_clients()[j].id == id);
                    assert(olds[i].id != id);
                }
            }
        }
        self.stats.total_connections = add_sat(self.stats.total_connections, 1);
        let notice = NoticeMessage {
            timestamp_ms: now_ms,
            kind: NoticeKind::Joined,
            nickname: ret.nickname.clone(),
            ip,
        };
        self.push_fanout_notice(notice);
        let mut msg = ret.nickname.clone();
        msg.append(" joined");
        self.oplog.push(
            SystemLog { timestamp_ms: now_ms, level: LogLevel::Info, message: msg, ip: Some(ip), action: None },
        );
        Ok(ret)
    }

    /// Queues a notice on the fan-out; notices are never operator records.
    fn push_fanout_notice(&mut self, n: NoticeMessage)
        requires
            fanout_clean(old(self).spec_fanout()),
        ensures
            final(self).spec_fanout() =~= old(self).spec_fanout().push(MessageEvent::Notice(n)),
            fanout_clean(final(self).spec_fanout()),
            final(self).spec_clients() == old(self).spec_clients(),
            final(self).spec_oplog() == old(self).spec_oplog(),
            final(self).spec_stats() == old(self).spec_stats(),
            final(self).spec_bans()@ == old(self).spec_bans()@,
            final(self).spec_max_clients() == old(self).spec_max_clients(),
    {
        let ghost oldf = self.spec_fanout();
        self.fanout.push(MessageEvent::Notice(n));
        proof {
            assert forall|i: int|
                0 <= i < self.spec_fanout().len() implies !(#[trigger] self.spec_fanout()[i]).is_system()
                by {
                if i < oldf.len() {
                    assert(self.spec_fanout()[i] == oldf[i]);
                }
            }
        }
    }

    /// Queues a chat line on the fan-out.
    fn push_fanout_chat(&mut self, m: ChatMessage)
        requires
            fanout_clean(old(self).spec_fanout()),
        ensures
            final(self).spec_fanout() =~= old(self).spec_fanout().push(MessageEvent::Chat(m)),
            fanout_clean(final(self).spec_fanout()),
            final(self).spec_clients() == old(self).spec_clients(),
            final(self).spec_oplog() == old(self).spec_oplog(),
            final(self).spec_stats() == old(self).spec_stats(),
            final(self).spec_bans()@ == old(self).spec_bans()@,
            final(self).spec_max_clients() == old(self).spec_max_clients(),
    {
        let ghost oldf = self.spec_fanout();
        self.fanout.push(MessageEvent::Chat(m));
        proof {
            assert forall|i: int|
                0 <= i < self.spec_fanout().len() implies !(#[trigger] self.spec_fanout()[i]).is_system()
                by {
                if i < oldf.len() {
                    assert(self.spec_fanout()[i] == oldf[i]);
                }
            }
        }
    }

    /// Registers a client under a freshly drawn identifier and color.  A
    /// full server or a taken nickname is refused; success gives the new
    /// client, whose registration is exactly that of
    /// [`Self::add_client_with_id`].
    pub fn add_client(&mut self, nickname: String, ip: u128, now_ms: u64) -> (r: Result<
        (u128, Client),
        ChatError,
    >)
        requires
            old(self).wf(),
        ensures
            final(self).wf(),
            final(self).spec_max_clients() == old(self).spec_max_clients(),
            final(self).spec_bans()@ == old(self).spec_bans()@,
            old(self).spec_clients().len() >= old(self).spec_max_clients() ==> r == Err::<(u128, Client), ChatError>(ChatError::ServerFull(old(self).spec_max_clients())),
            r is Ok ==> !old(self).spec_nickname_taken(nickname@) && old(self).spec_clients().len() < old(self).spec_max_clients(),
            // A failure with room and a free nickname can only be a clash of
            // the freshly drawn identifier, so some client already stands.
            !(r is Ok) && old(self).spec_clients().len() < old(self).spec_max_clients() && !old(
                self,
            ).spec_nickname_taken(nickname@) ==> old(self).spec_clients().len() > 0,
            old(self).spec_clients().len() == 0 && old(self).spec_max_clients() > 0 ==> r is Ok,
            !(r is Ok) ==> final(self).spec_clients() == old(self).spec_clients() && final(self).spec_fanout() == old(self).spec_fanout() && final(self).spec_oplog() == old(self).spec_oplog() && final(self).spec_stats() == old(self).spec_stats(),
            r matches Ok(p) ==> {
                &&& p.1.id == p.0
                &&& p.1.nickname@ == nickname@
                &&& p.1.ip == ip
                &&& p.1.connected_at_ms == now_ms
                &&& final(self).spec_clients() =~= old(self).spec_clients().push(p.1)
                &&& final(self).spec_stats() == (Stats {
                    total_connections: crate::types::sat_u64(
                        old(self).spec_stats().total_connections + 1,
                    ),
                    ..old(self).spec_stats()
                })
                &&& final(self).spec_fanout().len() == old(self).spec_fanout().len() + 1
                &&& forall|i: int|
                    0 <= i < old(self).spec_fanout().len() ==> final(self).spec_fanout()[i]
                        == #[trigger] old(self).spec_fanout()[i]
                &&& (final(self).spec_fanout().last() matches MessageEvent::Notice(n) && n.kind
                    == NoticeKind::Joined && n.nickname@ == nickname@ && n.ip == ip
                    && n.timestamp_ms == now_ms)
                &&& final(self).spec_oplog().len() == old(self).spec_oplog().len() + 1
                &&& forall|i: int|
                    0 <= i < old(self).spec_oplog().len() ==> final(self).spec_oplog()[i]
                        == #[trigger] old(self).spec_oplog()[i]
                &&& final(self).spec_oplog().last().level == LogLevel::Info
                &&& final(self).spec_oplog().last().ip == Some(ip)
                &&& final(self).spec_oplog().last().action is None
                &&& final(self).spec_oplog().last().timestamp_ms == now_ms
            },
    {
        let id = crate::entropy::fresh_client_id();
        let color = Color::random();
        proof {
            if self.spec_clients().len() == 0 {
                // An empty registry holds no identifier at all.
                assert(!self.spec_has_client(id));
            }
        }
        match self.add_client_with_id(id, color, nickname, ip, now_ms) {
            Ok(c) => Ok((id, c)),
            Err(e) => Err(e),
        }
    }

    /// Removes a client if connected: a leave notice goes to the fan-out
    /// and an informational record to the operator log.
    pub fn remove_client(&mut self, client_id: u128, now_ms: u64)
        requires
            old(self).wf(),
        ensures
            final(self).wf(),
            final(self).spec_max_clients() == old(self).spec_max_clients(),
            final(self).spec_bans()@ == old(self).spec_bans()@,
            final(self).spec_stats() == old(self).spec_stats(),
            !old(self).spec_has_client(client_id) ==> final(self).spec_clients() == old(self).spec_clients() && final(self).spec_fanout() == old(self).spec_fanout() && final(self).spec_oplog() == old(self).spec_oplog(),
            old(self).spec_has_client(client_id) ==> exists|k: int|
                {
                    &&& 0 <= k < old(self).spec_clients().len()
                    &&& (#[trigger] old(self).spec_clients()[k]).id == client_id
                    &&& final(self).spec_clients() =~= old(self).spec_clients().remove(k)
                    &&& final(self).spec_fanout().len() == old(self).spec_fanout().len() + 1
                    &&& forall|i: int|
                        0 <= i < old(self).spec_fanout().len() ==> final(self).spec_fanout()[i]
                            == #[trigger] old(self).spec_fanout()[i]
                    &&& (final(self).spec_fanout().last() matches MessageEvent::Notice(n) && n.kind
                        == NoticeKind::Left && n.nickname@ == old(self).spec_clients()[k].nickname@ && n.ip == old(self).spec_clients()[k].ip
                        && n.timestamp_ms == now_ms)
                    &&& final(self).spec_oplog().len() == old(self).spec_oplog().len() + 1
                    &&& forall|i: int|
                        0 <= i < old(self).spec_oplog().len() ==> final(self).spec_oplog()[i]
                            == #[trigger] old(self).spec_oplog()[i]
                    &&& final(self).spec_oplog().last().level == LogLevel::Info
                    &&& final(self).spec_oplog().last().ip == Some(
                        old(self).spec_clients()[k].ip,
                    )
                    &&& final(self).spec_oplog().last().action is None
                },
    {
        let ghost olds = self.spec_clients();
        let k = match self.find_by_id(client_id) {
            None => {
                return ;
            },
            Some(k) => k,
        };
        let removed = self.clients.remove(k);
        proof {
            assert(self.spec_clients() =~= olds.remove(k as int));
            assert forall|i: int, j: int|
                0 <= i < j < self.spec_clients().len() implies (#[trigger] self.spec_clients()[i]).nickname@
                != (#[trigger] self.spec_clients()[j]).nickname@ by {
                let i0 = if i < k { i } else { i + 1 };
                let j0 = if j < k { j } else { j + 1 };
                assert(self.spec_clients()[i] == olds[i0] && self.spec_clients()[j] == olds[j0]);
                assert(olds[i0].nickname@ != olds[j0].nickname@);
            }
            assert forall|i: int, j: int|
                0 <= i < j < self.spec_clients().len() implies (#[trigger] self.spec_clients()[i]).id
                != (#[trigger] self.spec_clients()[j]).id by {
                let i0 = if i < k { i } else { i + 1 };
                let j0 = if j < k { j } else { j + 1 };
                assert(self.spec_clients()[i] == olds[i0] && self.spec_clients()[j] == olds[j0]);
                assert(olds[i0].id != olds[j0].id);
            }
        }
        let notice = NoticeMessage {
            timestamp_ms: now_ms,
            kind: NoticeKind::Left,
            nickname: removed.nickname.clone(),
            ip: removed.ip,
        };
        self.push_fanout_notice(notice);
        let mut msg = removed.nickname.clone();
        msg.append(" left");
        self.oplog.push(
            SystemLog {
                timestamp_ms: now_ms,
                level: LogLevel::Info,
                message: msg,
                ip: Some(removed.ip),
                action: None,
            },
        );
    }

    /// Queues the client's chat line on the fan-out and counts it.
    /// Succeeds exactly when the client is connected.
    pub fn broadcast_chat(&mut self, client_id: u128, text: String, now_ms: u64) -> (r: Result<
        (),
        ChatError,
    >)
        requires
            old(self).wf(),
        ensures
            final(self).wf(),
            final(self).spec_max_clients() == old(self).spec_max_clients(),
            final(self).spec_bans()@ == old(self).spec_bans()@,
            final(self).spec_clients() == old(self).spec_clients(),
            final(self).spec_oplog() == old(self).spec_oplog(),
            (r is Ok) == old(self).spec_has_client(client_id),
            !(r is Ok) ==> final(self).spec_fanout() == old(self).spec_fanout() && final(self).spec_stats() == old(self).spec_stats(),
            r is Ok ==> exists|k: int|
                {
                    &&& 0 <= k < old(self).spec_clients().len()
                    &&& (#[trigger] old(self).spec_clients()[k]).id == client_id
                    &&& final(self).spec_fanout().len() == old(self).spec_fanout().len() + 1
                    &&& forall|i: int|
                        0 <= i < old(self).spec_fanout().len() ==> final(self).spec_fanout()[i]
                            == #[trigger] old(self).spec_fanout()[i]
                    &&& (final(self).spec_fanout().last() matches MessageEvent::Chat(m)
                        && m.text@ == text@ && m.nickname@ == old(self).spec_clients()[k].nickname@ && m.color == old(self).spec_clients()[k].color
                        && m.ip == old(self).spec_clients()[k].ip && m.timestamp_ms == now_ms)
                    &&& final(self).spec_stats() == (Stats {
                        total_messages: crate::types::sat_u64(
                            old(self).spec_stats().total_messages + 1,
                        ),
                        ..old(self).spec_stats()
                    })
                },
    {
        let k = match self.find_by_id(client_id) {
            None => {
                return Err(ChatError::Other(String::from_str("client not found")));
            },
            Some(k) => k,
        };
        let message = ChatMessage {
            timestamp_ms: now_ms,
            nickname: self.clients[k].nickname.clone(),
            text,
            color: self.clients[k].color,
            ip: self.clients[k].ip,
        };
        self.push_fanout_chat(message);
        self.stats.total_messages = add_sat(self.stats.total_messages, 1);
        Ok(())
    }

    /// Queues an operator-only record; it never touches the fan-out.
    pub fn log_system(&mut self, level: LogLevel, message: String, ip: Option<u128>, now_ms: u64)
        requires
            old(self).wf(),
        ensures
            final(self).wf(),
            final(self).spec_max_clients() == old(self).spec_max_clients(),
            final(self).spec_bans()@ == old(self).spec_bans()@,
            final(self).spec_clients() == old(self).spec_clients(),
            final(self).spec_fanout() == old(self).spec_fanout(),
            final(self).spec_stats() == old(self).spec_stats(),
            final(self).spec_oplog() =~= old(self).spec_oplog().push(
                SystemLog { timestamp_ms: now_ms, level, message, ip, action: None },
            ),
    {
        self.oplog.push(
            SystemLog { timestamp_ms: now_ms, level, message, ip, action: None },
        );
    }

    /// Hands over the queued fan-out events and leaves the queue empty.
    /// Nothing handed over is an operator record.
    pub fn take_fanout(&mut self) -> (r: Vec<MessageEvent>)
        requires
            old(self).wf(),
        ensures
            final(self).wf(),
            r@ == old(self).spec_fanout(),
            fanout_clean(r@),
            final(self).spec_fanout().len() == 0,
            final(self).spec_clients() == old(self).spec_clients(),
            final(self).spec_oplog() == old(self).spec_oplog(),
            final(self).spec_stats() == old(self).spec_stats(),
            final(self).spec_bans()@ == old(self).spec_bans()@,
            final(self).spec_max_clients() == old(self).spec_max_clients(),
    {
        let mut out: Vec<MessageEvent> = Vec::new();
        core::mem::swap(&mut out, &mut self.fanout);
        out
    }

    /// Hands over the queued operator records and leaves the queue empty.
    pub fn take_oplog(&mut self) -> (r: Vec<SystemLog>)
        requires
            old(self).wf(),
        ensures
            final(self).wf(),
            r@ == old(self).spec_oplog(),
            final(self).spec_oplog().len() == 0,
            final(self).spec_clients() == old(self).spec_clients(),
            final(self).spec_fanout() == old(self).spec_fanout(),
            final(self).spec_stats() == old(self).spec_stats(),
            final(self).spec_bans()@ == old(self).spec_bans()@,
            final(self).spec_max_clients() == old(self).spec_max_clients(),
    {
        let mut out: Vec<SystemLog> = Vec::new();
        core::mem::swap(&mut out, &mut self.oplog);
        out
    }

    /// How many clients are connected.
    pub fn client_count(&self) -> (r: usize)
        ensures
            r == self.spec_clients().len(),
    {
        self.clients.len()
    }

    /// Copies of all connected clients, in registration order.
    pub fn get_clients(&self) -> (r: Vec<Client>)
        ensures
            r@ =~= self.spec_clients(),
    {
        let mut out: Vec<Client> = Vec::new();
        let mut i: usize = 0;
        while i < self.clients.len()
            invariant
                i <= self.spec_clients().len(),
                out@ =~= self.spec_clients().subrange(0, i as int),
            decreases self.spec_clients().len() - i,
        {
            let c = self.clients[i].duplicate();
            out.push(c);
            proof {
                assert(out@ =~= self.spec_clients().subrange(0, i + 1));
            }
            i = i + 1;
        }
        out
    }

    /// The connected client with this identifier, if any.
    pub fn get_client(&self, client_id: u128) -> (r: Option<Client>)
        ensures
            (r is Some) == self.spec_has_client(client_id),
            r matches Some(c) ==> c.id == client_id && exists|k: int|
                0 <= k < self.spec_clients().len() && #[trigger] self.spec_clients()[k] == c,
    {
        match self.find_by_id(client_id) {
            None => None,
            Some(k) => {
                let c = self.clients[k].duplicate();
                proof {
                    assert(self.spec_clients()[k as int] == c);
                }
                Some(c)
            },
        }
    }

    /// The current statistics.
    pub fn get_stats(&self) -> (r: Stats)
        ensures
            r == self.spec_stats(),
    {
        self.stats
    }

    /// Whether no connected client carries this nickname.
    pub fn is_nickname_available(&self, nickname: &str) -> (r: bool)
        ensures
            r == !self.spec_nickname_taken(nickname@),
    {
        match self.find_by_nickname(nickname) {
            None => true,
            Some(_) => false,
        }
    }

    /// The connected client with this nickname, if any.
    pub fn get_client_by_nickname(&self, nickname: &str) -> (r: Option<Client>)
        ensures
            (r is Some) == self.spec_nickname_taken(nickname@),
            r matches Some(c) ==> c.nickname@ == nickname@ && exists|k: int|
                0 <= k < self.spec_clients().len() && #[trigger] self.spec_clients()[k] == c,
    {
        match self.find_by_nickname(nickname) {
            None => None,
            Some(k) => {
                let c = self.clients[k].duplicate();
                proof {
                    assert(self.spec_clients()[k as int] == c);
                }
                Some(c)
            },
        }
    }

    /// A view of the ban list.
    pub fn ban_manager(&self) -> (r: &BanManager)
        ensures
            r == self.spec_bans(),
    {
        &self.bans
    }
}

/// The hyphenated identifier grammar: five groups of 8, 4, 4, 4 and 12
/// hexadecimal digits.
pub open spec fn spec_parse_uuid(s: Seq<char>, from: int, to: int) -> Option<u128> {
    let e1 = crate::text::hex_run_end(s, from, to);
    let b2 = e1 + 1;
    let e2 = crate::text::hex_run_end(s, b2, to);
    let b3 = e2 + 1;
    let e3 = crate::text::hex_run_end(s, b3, to);
    let b4 = e3 + 1;
    let e4 = crate::text::hex_run_end(s, b4, to);
    let b5 = e4 + 1;
    let e5 = crate::text::hex_run_end(s, b5, to);
    if e1 - from == 8 && e1 < to && s[e1] == '-' && e2 - b2 == 4 && e2 < to && s[e2] == '-' && e3
        - b3 == 4 && e3 < to && s[e3] == '-' && e4 - b4 == 4 && e4 < to && s[e4] == '-' && e5 - b5
        == 12 && e5 == to {
        Some(
            (crate::text::hex_val(s.subrange(from, e1)) * 0x1000000000000000000000000
                + crate::text::hex_val(s.subrange(b2, e2)) * 0x100000000000000000000
                + crate::text::hex_val(s.subrange(b3, e3)) * 0x10000000000000000
                + crate::text::hex_val(s.subrange(b4, e4)) * 0x1000000000000 + crate::text::hex_val(
                s.subrange(b5, e5),
            )) as u128,
        )
    } else {
        None
    }
}

/// Reads a hyphenated 128-bit identifier; the result agrees with the
/// grammar exactly.
pub fn parse_uuid(s: &str, from: usize, to: usize) -> (r: Option<u128>)
    requires
        from <= to,
        to <= s@.len(),
    ensures
        r == spec_parse_uuid(s@, from as int, to as int),
{
    let g1 = match crate::text::parse_hex_run(s, from, to, 8) {
        None => { return None; },
        Some(p) => p,
    };
    if !(g1.1 - from == 8 && g1.1 < to && s.get_char(g1.1) == '-') {
        return None;
    }
    let g2 = match crate::text::parse_hex_run(s, g1.1 + 1, to, 4) {
        None => { return None; },
        Some(p) => p,
    };
    if !(g2.1 - (g1.1 + 1) == 4 && g2.1 < to && s.get_char(g2.1) == '-') {
        return None;
    }
    let g3 = match crate::text::parse_hex_run(s, g2.1 + 1, to, 4) {
        None => { return None; },
        Some(p) => p,
    };
    if !(g3.1 - (g2.1 + 1) == 4 && g3.1 < to && s.get_char(g3.1) == '-') {
        return None;
    }
    let g4 = match crate::text::parse_hex_run(s, g3.1 + 1, to, 4) {
        None => { return None; },
        Some(p) => p,
    };
    if !(g4.1 - (g3.1 + 1) == 4 && g4.1 < to && s.get_char(g4.1) == '-') {
        return None;
    }
    let g5 = match crate::text::parse_hex_run(s, g4.1 + 1, to, 12) {
        None => { return None; },
        Some(p) => p,
    };
    if !(g5.1 - (g4.1 + 1) == 12 && g5.1 == to) {
        return None;
    }
    proof {
        crate::text::lemma_hex_val_len_bound(s@.subrange(from as int, g1.1 as int));
        crate::text::lemma_hex_val_len_bound(s@.subrange(g1.1 + 1, g2.1 as int));
        crate::text::lemma_hex_val_len_bound(s@.subrange(g2.1 + 1, g3.1 as int));
        crate::text::lemma_hex_val_len_bound(s@.subrange(g3.1 + 1, g4.1 as int));
        crate::text::lemma_hex_val_len_bound(s@.subrange(g4.1 + 1, g5.1 as int));
        lemma_pow16_values();
    }
    let v: u128 = (g1.0 as u128) * 0x1000000000000000000000000 + (g2.0 as u128)
        * 0x100000000000000000000 + (g3.0 as u128) * 0x10000000000000000 + (g4.0 as u128)
        * 0x1000000000000 + (g5.0 as u128);
    Some(v)
}

proof fn lemma_pow16_values()
    ensures
        crate::text::pow16(4) == 0x10000,
        crate::text::pow16(8) == 0x100000000,
        crate::text::pow16(12) == 0x1000000000000,
{
    reveal_with_fuel(crate::text::pow16, 14);
}

impl ChatServer {
    /// `k` is the client the target names: by identifier when the target
    /// reads as one and such a client is connected; else by address when it
    /// reads as one and a client connects from it (the longest-connected
    /// one); else by nickname.
    pub open spec fn spec_resolves_at(&self, target: Seq<char>, k: int) -> bool {
        let u = spec_parse_uuid(target, 0, target.len() as int);
        let ipo = crate::ip::spec_parse_ip(target, 0, target.len() as int);
        &&& 0 <= k < self.spec_clients().len()
        &&& if u is Some && self.spec_has_client(u->0) {
            self.spec_clients()[k].id == u->0
        } else if ipo is Some {
            self.spec_clients()[k].ip == ipo->0 && forall|j: int|
                0 <= j < k ==> (#[trigger] self.spec_clients()[j]).ip != ipo->0
        } else {
            self.spec_clients()[k].nickname@ == target
        }
    }

    /// Some client answers to the target.
    pub open spec fn spec_resolvable(&self, target: Seq<char>) -> bool {
        exists|k: int| self.spec_resolves_at(target, k)
    }

    /// The address a ban of `target` falls on: a literal address even
    /// without a connected client, else the resolved client's address.
    pub open spec fn spec_ban_ip(&self, target: Seq<char>) -> Option<u128> {
        match crate::ip::spec_parse_ip(target, 0, target.len() as int) {
            Some(ip) => Some(ip),
            None => if self.spec_resolvable(target) {
                let k = choose|k: int| self.spec_resolves_at(target, k);
                Some(self.spec_clients()[k].ip)
            } else {
                None
            },
        }
    }

    /// Finds the client the target names.
    fn resolve_index(&self, target: &str) -> (r: Option<usize>)
        requires
            self.wf(),
        ensures
            match r {
                Some(k) => self.spec_resolves_at(target@, k as int),
                None => !self.spec_resolvable(target@),
            },
    {
        let n = target.unicode_len();
        if let Some(u) = parse_uuid(target, 0, n) {
            if let Some(k) = self.find_by_id(u) {
                return Some(k);
            }
        }
        if let Some(ip) = crate::ip::parse_ip(target, 0, n) {
            if let Some(k) = self.find_by_ip(ip) {
                return Some(k);
            }
            proof {
                if self.spec_resolvable(target@) {
                    let k = choose|k: int| self.spec_resolves_at(target@, k);
                    assert(self.spec_clients()[k].ip == ip);
                }
            }
            return None;
        }
        match self.find_by_nickname(target) {
            Some(k) => Some(k),
            None => {
                proof {
                    if self.spec_resolvable(target@) {
                        let k = choose|k: int| self.spec_resolves_at(target@, k);
                        assert(self.spec_clients()[k].nickname@ == target@);
                    }
                }
                None
            },
        }
    }

    /// Removes the client the target names: a leave notice reaches the
    /// fan-out, the kick counter rises, and the operator log records the
    /// kick with its action.  Fails exactly when nothing answers to the
    /// target.
    pub fn kick_client(&mut self, target: &str, reason: Option<String>, now_ms: u64) -> (r: Result<
        String,
        String,
    >)
        requires
            old(self).wf(),
        ensures
            final(self).wf(),
            final(self).spec_max_clients() == old(self).spec_max_clients(),
            final(self).spec_bans()@ == old(self).spec_bans()@,
            (r is Ok) == old(self).spec_resolvable(target@),
            !(r is Ok) ==> final(self).spec_clients() == old(self).spec_clients() && final(self).spec_fanout() == old(self).spec_fanout() && final(self).spec_oplog() == old(self).spec_oplog() && final(self).spec_stats() == old(self).spec_stats(),
            r is Ok ==> exists|k: int|
                {
                    &&& old(self).spec_resolves_at(target@, k)
                    &&& final(self).spec_clients() =~= old(self).spec_clients().remove(k)
                    &&& final(self).spec_stats() == (Stats {
                        total_kicks: crate::types::sat_u64(old(self).spec_stats().total_kicks + 1),
                        ..old(self).spec_stats()
                    })
                    &&& final(self).spec_fanout().len() == old(self).spec_fanout().len() + 1
                    &&& forall|i: int|
                        0 <= i < old(self).spec_fanout().len() ==> final(self).spec_fanout()[i]
                            == #[trigger] old(self).spec_fanout()[i]
                    &&& (final(self).spec_fanout().last() matches MessageEvent::Notice(n) && n.kind
                        == NoticeKind::Left && n.nickname@ == old(self).spec_clients()[k].nickname@)
                    &&& final(self).spec_oplog().len() == old(self).spec_oplog().len() + 2
                    &&& forall|i: int|
                        0 <= i < old(self).spec_oplog().len() ==> final(self).spec_oplog()[i]
                            == #[trigger] old(self).spec_oplog()[i]
                    &&& final(self).spec_oplog().last().level == LogLevel::Warning
                    &&& (final(self).spec_oplog().last().action matches Some(a) && (
                    a matches crate::types::AdminAction::Kick { nickname, ip } && nickname@ == old(self).spec_clients()[k].nickname@ && ip == old(self).spec_clients()[k].ip))
                },
    {
        let k = match self.resolve_index(target) {
            None => {
                return Err(String::from_str("no client answers to that target"));
            },
            Some(k) => k,
        };
        let ghost oldself = *self;
        let id = self.clients[k].id;
        let nickname = self.clients[k].nickname.clone();
        let ip = self.clients[k].ip;
        let _ = reason;
        proof {
            assert(self.spec_has_client(id));
        }
        self.remove_client(id, now_ms);
        proof {
            // The entry removed by identifier is the resolved one: the
            // identifiers are pairwise distinct.
            let k2 = choose|k2: int|
                {
                    &&& 0 <= k2 < oldself.spec_clients().len()
                    &&& (#[trigger] oldself.spec_clients()[k2]).id == id
                    &&& self.spec_clients() =~= oldself.spec_clients().remove(k2)
                };
            if k2 != k as int {
                assert(oldself.spec_clients()[k as int].id != oldself.spec_clients()[k2].id);
            }
        }
        self.stats.total_kicks = add_sat(self.stats.total_kicks, 1);
        let mut msg = String::from_str("Kicked ");
        msg.append(nickname.as_str());
        let act = crate::types::AdminAction::Kick { nickname, ip };
        self.oplog.push(
            SystemLog {
                timestamp_ms: now_ms,
                level: LogLevel::Warning,
                message: msg.clone(),
                ip: Some(ip),
                action: Some(act),
            },
        );
        Ok(msg)
    }

    /// Bans the target's address: the ban list gains the entry (permanent
    /// or expiring), the ban counter rises, the operator log records the
    /// action, and every client from that address is removed, each with a
    /// leave notice.  Fails exactly when the target neither reads as an
    /// address nor names a client.
    pub fn ban_client(
        &mut self,
        target: &str,
        duration: crate::types::BanDuration,
        reason: Option<String>,
        now_ms: u64,
    ) -> (r: Result<String, String>)
        requires
            old(self).wf(),
        ensures
            final(self).wf(),
            final(self).spec_max_clients() == old(self).spec_max_clients(),
            (r is Ok) == (old(self).spec_ban_ip(target@) is Some),
            !(r is Ok) ==> final(self).spec_clients() == old(self).spec_clients() && final(self).spec_fanout() == old(self).spec_fanout() && final(self).spec_oplog() == old(self).spec_oplog() && final(self).spec_stats() == old(self).spec_stats() && final(self).spec_bans()@ == old(self).spec_bans()@,
            r is Ok ==> ({
                let ip = old(self).spec_ban_ip(target@)->0;
                // Every client from the banned address is gone; the rest
                // stand untouched, in order.
                &&& final(self).spec_clients() == old(self).spec_clients().filter(
                    |c: Client| c.ip != ip,
                )
                &&& (duration is Permanent ==> forall|t: u64|
                    final(self).spec_bans().spec_is_banned(ip, t))
                &&& (!(duration is Permanent) && duration.spec_seconds()->0 > 0 && now_ms
                    < u64::MAX ==> final(self).spec_bans().spec_is_banned(ip, now_ms))
                // The list gains or overwrites exactly one entry, keyed by
                // the banned address, with the given reason and the expiry
                // the duration asks for; every other entry stands as it was.
                &&& exists|e: crate::ban::BanEntry|
                    {
                        &&& #[trigger] e.ip == ip
                        &&& e.banned_at_ms == now_ms
                        &&& e.reason@ == (match reason {
                            Some(s) => s@,
                            None => "No reason provided"@,
                        })
                        &&& e.expires_at_ms == (match duration.spec_seconds() {
                            None => None::<u64>,
                            Some(secs) => Some(
                                crate::types::sat_u64(
                                    now_ms + crate::types::sat_u64(secs * 1000),
                                ),
                            ),
                        })
                        &&& ((exists|k: int|
                            0 <= k < old(self).spec_bans()@.len() && (#[trigger] old(
                                self,
                            ).spec_bans()@[k]).ip == ip && final(self).spec_bans()@ =~= old(
                                self,
                            ).spec_bans()@.update(k, e)) || (!old(self).spec_bans().spec_has(ip)
                            && final(self).spec_bans()@ =~= old(self).spec_bans()@.push(e)))
                    }
                &&& final(self).spec_stats() == (Stats {
                    total_bans: crate::types::sat_u64(old(self).spec_stats().total_bans + 1),
                    ..old(self).spec_stats()
                })
                &&& final(self).spec_oplog().len() > old(self).spec_oplog().len()
                &&& forall|i: int|
                    0 <= i < old(self).spec_oplog().len() ==> final(self).spec_oplog()[i]
                        == #[trigger] old(self).spec_oplog()[i]
                &&& (final(self).spec_oplog()[old(self).spec_oplog().len() as int].action
                    matches Some(a) && (if duration is Permanent {
                    a matches crate::types::AdminAction::Ban { ip: bip, .. } && bip == ip
                } else {
                    a matches crate::types::AdminAction::TempBan { ip: bip, .. } && bip == ip
                }))
                &&& final(self).spec_fanout().len() >= old(self).spec_fanout().len()
                &&& forall|i: int|
                    0 <= i < old(self).spec_fanout().len() ==> final(self).spec_fanout()[i]
                        == #[trigger] old(self).spec_fanout()[i]
                &&& forall|i: int|
                    old(self).spec_fanout().len() <= i < final(self).spec_fanout().len() ==> ((
                    #[trigger] final(self).spec_fanout()[i]) matches MessageEvent::Notice(n)
                        && n.kind == NoticeKind::Left)
            }),
    {
        let n = target.unicode_len();
        let ip: u128 = match crate::ip::parse_ip(target, 0, n) {
            Some(ip) => ip,
            None => {
                match self.resolve_index(target) {
                    Some(k) => {
                        proof {
                            // Resolution is unique: by identifier or by
                            // nickname, both pairwise distinct.
                            let kc = choose|kc: int| self.spec_resolves_at(target@, kc);
                            assert(self.spec_resolves_at(target@, k as int));
                            if kc != k as int {
                                let u = spec_parse_uuid(target@, 0, target@.len() as int);
                                if u is Some && self.spec_has_client(u->0) {
                                    if kc < k as int {
                                        assert(self.spec_clients()[kc].id
                                            != self.spec_clients()[k as int].id);
                                    } else {
                                        assert(self.spec_clients()[k as int].id
                                            != self.spec_clients()[kc].id);
                                    }
                                } else {
                                    if kc < k as int {
                                        assert(self.spec_clients()[kc].nickname@
                                            != self.spec_clients()[k as int].nickname@);
                                    } else {
                                        assert(self.spec_clients()[k as int].nickname@
                                            != self.spec_clients()[kc].nickname@);
                                    }
                                }
                            }
                        }
                        self.clients[k].ip
                    },
                    None => {
                        return Err(String::from_str("no client answers to that target"));
                    },
                }
            },
        };
        proof {
            assert(self.spec_ban_ip(target@) == Some(ip));
        }
        let ghost goldlog = self.spec_oplog();
        let reason_str: String = match reason {
            Some(s) => s,
            None => String::from_str("No reason provided"),
        };
        let dur = duration.to_duration();
        match dur {
            None => {
                let ghost ge = crate::ban::BanEntry {
                    ip,
                    reason: reason_str,
                    banned_at_ms: now_ms,
                    expires_at_ms: None,
                };
                self.bans.ban_permanent(ip, reason_str.clone(), now_ms);
                proof {
                    assert(ge.ip == ip);
                }
                let act = crate::types::AdminAction::Ban { ip, reason: reason_str };
                self.oplog.push(
                    SystemLog {
                        timestamp_ms: now_ms,
                        level: LogLevel::Error,
                        message: String::from_str("permanent ban"),
                        ip: Some(ip),
                        action: Some(act),
                    },
                );
            },
            Some(secs) => {
                let dur_ms = crate::types::mul_sat(secs, 1000);
                let ghost ge = crate::ban::BanEntry {
                    ip,
                    reason: reason_str,
                    banned_at_ms: now_ms,
                    expires_at_ms: Some(crate::types::sat_u64(now_ms + dur_ms)),
                };
                self.bans.ban_temporary(ip, dur_ms, reason_str, now_ms);
                proof {
                    assert(ge.ip == ip);
                    if duration.spec_seconds()->0 > 0 && now_ms < u64::MAX {
                        assert(dur_ms > 0);
                    }
                }
                let act = crate::types::AdminAction::TempBan { ip, duration_ms: dur_ms };
                self.oplog.push(
                    SystemLog {
                        timestamp_ms: now_ms,
                        level: LogLevel::Warning,
                        message: String::from_str("temporary ban"),
                        ip: Some(ip),
                        action: Some(act),
                    },
                );
            },
        }
        self.stats.total_bans = add_sat(self.stats.total_bans, 1);
        let ghost gmidlog = self.spec_oplog();
        self.remove_clients_from_ip(ip, now_ms);
        proof {
            assert forall|i: int| 0 <= i < goldlog.len() implies self.spec_oplog()[i]
                == goldlog[i] by {
                assert(gmidlog[i] == goldlog[i]);
                assert(self.spec_oplog()[i] == gmidlog[i]);
            }
            // The record pushed before the removals still stands right
            // after the untouched prefix.
            assert(gmidlog.len() == goldlog.len() + 1);
            assert(self.spec_oplog()[goldlog.len() as int] == gmidlog[goldlog.len() as int]);
            assert(gmidlog[goldlog.len() as int] == gmidlog.last());
        }
        Ok(String::from_str("banned"))
    }

    /// Removes every client connected from `ip`, each with a leave notice
    /// on the fan-out and an informational operator record.
    fn remove_clients_from_ip(&mut self, ip: u128, now_ms: u64)
        requires
            old(self).wf(),
        ensures
            final(self).wf(),
            final(self).spec_max_clients() == old(self).spec_max_clients(),
            final(self).spec_bans()@ == old(self).spec_bans()@,
            final(self).spec_stats() == old(self).spec_stats(),
            final(self).spec_clients() == old(self).spec_clients().filter(
                |c: Client| c.ip != ip,
            ),
            final(self).spec_fanout().len() >= old(self).spec_fanout().len(),
            forall|i: int|
                0 <= i < old(self).spec_fanout().len() ==> final(self).spec_fanout()[i]
                    == #[trigger] old(self).spec_fanout()[i],
            forall|i: int|
                old(self).spec_fanout().len() <= i < final(self).spec_fanout().len() ==> ((
                #[trigger] final(self).spec_fanout()[i]) matches MessageEvent::Notice(n) && n.kind
                    == NoticeKind::Left),
            final(self).spec_oplog().len() >= old(self).spec_oplog().len(),
            forall|i: int|
                0 <= i < old(self).spec_oplog().len() ==> final(self).spec_oplog()[i]
                    == #[trigger] old(self).spec_oplog()[i],
    {
        let ghost olds = self.spec_clients();
        let ghost pred = |c: Client| c.ip != ip;
        let mut kept: Vec<Client> = Vec::new();
        proof {
            reveal(Seq::filter);
            assert(kept@ =~= olds.subrange(0, 0).filter(pred));
        }
        let n = self.clients.len();
        let mut i: usize = 0;
        while i < n
            invariant
                i <= n,
                n == olds.len(),
                self.spec_clients() =~= olds.subrange(i as int, n as int),
                self.spec_max_clients() == old(self).spec_max_clients(),
                self.spec_bans()@ == old(self).spec_bans()@,
                self.spec_stats() == old(self).spec_stats(),
                kept@ == olds.subrange(0, i as int).filter(pred),
                pred == (|c: Client| c.ip != ip),
                fanout_clean(self.spec_fanout()),
                self.spec_bans().wf(),
                self.spec_fanout().len() >= old(self).spec_fanout().len(),
                forall|q: int|
                    0 <= q < old(self).spec_fanout().len() ==> self.spec_fanout()[q]
                        == #[trigger] old(self).spec_fanout()[q],
                forall|q: int|
                    old(self).spec_fanout().len() <= q < self.spec_fanout().len() ==> ((
                    #[trigger] self.spec_fanout()[q]) matches MessageEvent::Notice(nt) && nt.kind
                        == NoticeKind::Left),
                self.spec_oplog().len() >= old(self).spec_oplog().len(),
                forall|q: int|
                    0 <= q < old(self).spec_oplog().len() ==> self.spec_oplog()[q]
                        == #[trigger] old(self).spec_oplog()[q],
            decreases n - i,
        {
            let c = self.clients.remove(0);
            proof {
                assert(c == olds[i as int]);
                assert(self.spec_clients() =~= olds.subrange(i + 1, n as int));
                reveal(Seq::filter);
                assert(olds.subrange(0, i + 1).drop_last() =~= olds.subrange(0, i as int));
                assert(olds.subrange(0, i + 1).last() == olds[i as int]);
            }
            if c.ip != ip {
                kept.push(c);
            } else {
                let notice = NoticeMessage {
                    timestamp_ms: now_ms,
                    kind: NoticeKind::Left,
                    nickname: c.nickname.clone(),
                    ip: c.ip,
                };
                let ghost oldf = self.spec_fanout();
                self.fanout.push(MessageEvent::Notice(notice));
                proof {
                    assert forall|q: int|
                        0 <= q < self.spec_fanout().len() implies !(
                        #[trigger] self.spec_fanout()[q]).is_system() by {
                        if q < oldf.len() {
                            assert(self.spec_fanout()[q] == oldf[q]);
                        }
                    }
                    assert forall|q: int|
                        old(self).spec_fanout().len() <= q < self.spec_fanout().len() implies (
                        #[trigger] self.spec_fanout()[q]) matches MessageEvent::Notice(nt)
                        && nt.kind == NoticeKind::Left by {
                        if q < oldf.len() {
                            assert(self.spec_fanout()[q] == oldf[q]);
                        }
                    }
                }
                let mut msg = c.nickname.clone();
                msg.append(" left");
                self.oplog.push(
                    SystemLog {
                        timestamp_ms: now_ms,
                        level: LogLevel::Info,
                        message: msg,
                        ip: Some(c.ip),
                        action: None,
                    },
                );
            }
            i = i + 1;
        }
        proof {
            assert(olds.subrange(0, n as int) =~= olds);
        }
        self.clients = kept;
        proof {
            lemma_filter_clients_sub(olds, pred);
            lemma_filter_keeps_clients_distinct(olds, pred);
        }
    }

    /// Lifts the ban on a literal address.  Succeeds exactly when the text
    /// reads as an address and an entry stood for it; then the operator log
    /// records the action.
    pub fn unban_client(&mut self, ip_str: &str, now_ms: u64) -> (r: Result<String, String>)
        requires
            old(self).wf(),
        ensures
            final(self).wf(),
            final(self).spec_max_clients() == old(self).spec_max_clients(),
            final(self).spec_clients() == old(self).spec_clients(),
            final(self).spec_fanout() == old(self).spec_fanout(),
            final(self).spec_stats() == old(self).spec_stats(),
            (r is Ok) == ({
                let ipo = crate::ip::spec_parse_ip(ip_str@, 0, ip_str@.len() as int);
                ipo is Some && old(self).spec_bans().spec_has(ipo->0)
            }),
            !(r is Ok) ==> final(self).spec_bans()@ == old(self).spec_bans()@ && final(self).spec_oplog() == old(self).spec_oplog(),
            r is Ok ==> ({
                let ip = crate::ip::spec_parse_ip(ip_str@, 0, ip_str@.len() as int)->0;
                &&& !final(self).spec_bans().spec_has(ip)
                &&& exists|k: int|
                    0 <= k < old(self).spec_bans()@.len() && (#[trigger] old(self).spec_bans()@[k]).ip == ip && final(self).spec_bans()@ =~= old(self).spec_bans()@.remove(k)
                &&& final(self).spec_oplog().len() == old(self).spec_oplog().len() + 1
                &&& forall|i: int|
                    0 <= i < old(self).spec_oplog().len() ==> final(self).spec_oplog()[i]
                        == #[trigger] old(self).spec_oplog()[i]
                &&& final(self).spec_oplog().last().level == LogLevel::Info
                &&& (final(self).spec_oplog().last().action matches Some(a) && a == (
                crate::types::AdminAction::Unban { ip }))
            }),
    {
        let n = ip_str.unicode_len();
        let ip = match crate::ip::parse_ip(ip_str, 0, n) {
            None => {
                return Err(String::from_str("invalid address"));
            },
            Some(ip) => ip,
        };
        let removed = self.bans.unban(ip);
        if !removed {
            return Err(String::from_str("address is not banned"));
        }
        self.oplog.push(
            SystemLog {
                timestamp_ms: now_ms,
                level: LogLevel::Info,
                message: String::from_str("unbanned"),
                ip: Some(ip),
                action: Some(crate::types::AdminAction::Unban { ip }),
            },
        );
        Ok(String::from_str("unbanned"))
    }
}

/// Every element of a filtered sequence stands in the unfiltered one.
proof fn lemma_filter_clients_sub(s: Seq<Client>, pred: spec_fn(Client) -> bool)
    ensures
        forall|i: int|
            0 <= i < s.filter(pred).len() ==> s.contains(#[trigger] s.filter(pred)[i]),
    decreases s.len(),
{
    reveal(Seq::filter);
    if s.len() > 0 {
        let s0 = s.drop_last();
        lemma_filter_clients_sub(s0, pred);
        let f = s.filter(pred);
        let f0 = s0.filter(pred);
        assert forall|i: int| 0 <= i < f.len() implies s.contains(#[trigger] f[i]) by {
            if i < f0.len() {
                assert(f[i] == f0[i]);
                assert(s0.contains(f0[i]));
                let j = choose|j: int| 0 <= j < s0.len() && s0[j] == f0[i];
                assert(s[j] == f[i]);
            } else {
                assert(f[i] == s.last());
                assert(s[s.len() - 1] == s.last());
            }
        }
    }
}

/// Filtering keeps nicknames and identifiers pairwise distinct.
proof fn lemma_filter_keeps_clients_distinct(s: Seq<Client>, pred: spec_fn(Client) -> bool)
    requires
        clients_distinct(s),
    ensures
        clients_distinct(s.filter(pred)),
    decreases s.len(),
{
    reveal(Seq::filter);
    if s.len() > 0 {
        let s0 = s.drop_last();
        assert(clients_distinct(s0)) by {
            assert forall|i: int, j: int|
                0 <= i < j < s0.len() implies (#[trigger] s0[i]).nickname@
                != (#[trigger] s0[j]).nickname@ by {
                assert(s[i].nickname@ != s[j].nickname@);
            }
            assert forall|i: int, j: int|
                0 <= i < j < s0.len() implies (#[trigger] s0[i]).id != (#[trigger] s0[j]).id by {
                assert(s[i].id != s[j].id);
            }
        }
        lemma_filter_keeps_clients_distinct(s0, pred);
        lemma_filter_clients_sub(s0, pred);
        let f = s.filter(pred);
        let f0 = s0.filter(pred);
        assert forall|i: int, j: int|
            0 <= i < j < f.len() implies (#[trigger] f[i]).nickname@
            != (#[trigger] f[j]).nickname@ by {
            if j < f0.len() {
                assert(f[i] == f0[i] && f[j] == f0[j]);
                assert(f0[i].nickname@ != f0[j].nickname@);
            } else if pred(s.last()) && j == f.len() - 1 && f.len() == f0.len() + 1 {
                assert(f[i] == f0[i]);
                assert(s0.contains(f0[i]));
                let k = choose|k: int| 0 <= k < s0.len() && s0[k] == f0[i];
                assert(s[k] == f0[i]);
                assert(s[k].nickname@ != s[s.len() - 1].nickname@);
                assert(f[j] == s.last());
            }
        }
        assert forall|i: int, j: int|
            0 <= i < j < f.len() implies (#[trigger] f[i]).id != (#[trigger] f[j]).id by {
            if j < f0.len() {
                assert(f[i] == f0[i] && f[j] == f0[j]);
                assert(f0[i].id != f0[j].id);
            } else if pred(s.last()) && j == f.len() - 1 && f.len() == f0.len() + 1 {
                assert(f[i] == f0[i]);
                assert(s0.contains(f0[i]));
                let k = choose|k: int| 0 <= k < s0.len() && s0[k] == f0[i];
                assert(s[k] == f0[i]);
                assert(s[k].id != s[s.len() - 1].id);
                assert(f[j] == s.last());
            }
        }
    }
}

/// Saturating increment used by the monotonic counters.
pub fn add_sat(a: u64, b: u64) -> (r: u64)
    ensures
        r == crate::types::sat_u64(a + b),
{
    if a > u64::MAX - b {
        u64::MAX
    } else {
        a + b
    }
}

} // verus!
