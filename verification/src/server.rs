//! The server's side of the UDP protocol: which clients are connected, what a
//! received packet does to that list and what the server answers, and the
//! counters of what was sent.  The sockets, the clock and the threads stay
//! outside; they hand in addresses and times in milliseconds.
use vstd::prelude::*;
use crate::udp::{UdpPacket, UdpCommand, PacketType, PacketFlags, PacketModel, CommandModel,
    parse_command, plain_packet};

verus! {

/// A client's socket address: the IP address (IPv4 addresses mapped into
/// IPv6) and the port.
#[derive(Debug, Clone, Copy, PartialEq, Eq, Structural)]
pub struct ClientAddr {
    pub ip: u128,
    pub port: u16,
}

/// What the server keeps of a connected client.
#[derive(Debug, Clone, Copy, PartialEq, Eq, Structural)]
pub struct ClientInfo {
    pub addr: ClientAddr,
    /// When the client was last heard from.
    pub last_seen_ms: u64,
    pub packet_counter: u32,
    /// Whether the client asked for compressed frames when it connected.
    pub compression_enabled: bool,
}

/// A client not heard from for this long is dropped.
pub const CLIENT_TIMEOUT_MS: u64 = 60000;

/// How often the list of clients is swept for silent ones.
pub const CLEANUP_INTERVAL_MS: u64 = 30000;

/// How often the transmission counters are reported.
pub const STATS_INTERVAL_MS: u64 = 10000;

/// The time from `since` to `now`, zero if `now` is earlier.
pub open spec fn elapsed(since: u64, now: u64) -> int {
    if now >= since { now - since } else { 0 }
}

/// No address occurs twice in the list.
pub open spec fn distinct_addrs(s: Seq<ClientInfo>) -> bool {
    forall|i: int, j: int| 0 <= i < j < s.len() ==> s[i].addr != s[j].addr
}

/// Some client in the list has the address `a`.
pub open spec fn has_addr(s: Seq<ClientInfo>, a: ClientAddr) -> bool {
    exists|i: int| 0 <= i < s.len() && #[trigger] s[i].addr == a
}

/// The list with the client at `a`, if any, marked as seen at `now`.
pub open spec fn touched(s: Seq<ClientInfo>, a: ClientAddr, now: u64) -> Seq<ClientInfo> {
    Seq::new(s.len(), |i: int| if s[i].addr == a { ClientInfo { last_seen_ms: now, ..s[i] } } else { s[i] })
}

/// The list without the clients at `a`, in the same order.
pub open spec fn without_addr(s: Seq<ClientInfo>, a: ClientAddr) -> Seq<ClientInfo>
    decreases s.len(),
{
    if s.len() == 0 {
        Seq::empty()
    } else {
        let rest = without_addr(s.drop_last(), a);
        if s.last().addr == a { rest } else { rest.push(s.last()) }
    }
}

/// A client heard from less than the timeout before `now`.
pub open spec fn is_fresh(c: ClientInfo, now: u64) -> bool {
    elapsed(c.last_seen_ms, now) < CLIENT_TIMEOUT_MS
}

/// The clients of the list that are fresh at `now`, in the same order.
pub open spec fn fresh_clients(s: Seq<ClientInfo>, now: u64) -> Seq<ClientInfo>
    decreases s.len(),
{
    if s.len() == 0 {
        Seq::empty()
    } else {
        let rest = fresh_clients(s.drop_last(), now);
        if is_fresh(s.last(), now) { rest.push(s.last()) } else { rest }
    }
}

/// The client that a connect packet from `a` at `now` registers.
pub open spec fn new_client(p: PacketModel, a: ClientAddr, now: u64) -> ClientInfo {
    ClientInfo { addr: a, last_seen_ms: now, packet_counter: 0, compression_enabled: p.flags & 1 == 1 }
}

/// The list of clients after packet `p` came from `a` at `now`: a connect
/// registers an unknown address or refreshes a known one, a command
/// refreshes its sender, a disconnect forgets it; other packets change
/// nothing.
pub open spec fn registry_after(s: Seq<ClientInfo>, p: PacketModel, a: ClientAddr, now: u64) -> Seq<ClientInfo> {
    match p.packet_type {
        PacketType::Connect => if has_addr(s, a) { touched(s, a, now) } else { s.push(new_client(p, a, now)) },
        PacketType::Command => touched(s, a, now),
        PacketType::Disconnect => without_addr(s, a),
        _ => s,
    }
}

/// What the server does after a packet: answer the sender, apply a command,
/// or nothing.
#[derive(Debug)]
pub enum ServerAction {
    Reply(UdpPacket),
    Apply(UdpCommand),
    Nothing,
}

/// The action packet `p` calls for: a connect is acknowledged and a ping
/// answered with its own sequence number, a command that parses is applied.
pub open spec fn action_is(action: ServerAction, p: PacketModel) -> bool {
    match p.packet_type {
        PacketType::Connect => action matches ServerAction::Reply(r) && r@ == plain_packet(PacketType::Ack, p.sequence, Seq::empty()),
        PacketType::Ping => action matches ServerAction::Reply(r) && r@ == plain_packet(PacketType::Pong, p.sequence, Seq::empty()),
        PacketType::Command => match parse_command(p.payload) {
            Some(c) => action matches ServerAction::Apply(cmd) && cmd@ == c,
            None => action is Nothing,
        },
        _ => action is Nothing,
    }
}

/// A connect registers its sender exactly once, whatever the list held.
pub proof fn lemma_connect_registers(s: Seq<ClientInfo>, p: PacketModel, a: ClientAddr, now: u64)
    requires
        distinct_addrs(s),
        p.packet_type == PacketType::Connect,
    ensures
        distinct_addrs(registry_after(s, p, a, now)),
        has_addr(registry_after(s, p, a, now), a),
        registry_after(s, p, a, now).len() == if has_addr(s, a) { s.len() } else { s.len() + 1 },
{
    let t = registry_after(s, p, a, now);
    if has_addr(s, a) {
        let i = choose|i: int| 0 <= i < s.len() && #[trigger] s[i].addr == a;
        assert(t[i].addr == a);
    } else {
        assert(t[s.len() as int].addr == a);
    }
}

/// Every client of `without_addr(s, a)` is a client of `s` not at `a`, and
/// every such client stays.
pub proof fn lemma_without_addr_members(s: Seq<ClientInfo>, a: ClientAddr)
    ensures
        forall|c: ClientInfo| #[trigger] without_addr(s, a).contains(c) <==> (s.contains(c) && c.addr != a),
    decreases s.len(),
{
    if s.len() > 0 {
        let r = without_addr(s.drop_last(), a);
        lemma_without_addr_members(s.drop_last(), a);
        assert forall|c: ClientInfo| #[trigger] without_addr(s, a).contains(c) <==> (s.contains(c) && c.addr != a) by {
            if s.contains(c) && c.addr != a {
                let k = choose|k: int| 0 <= k < s.len() && s[k] == c;
                if k < s.len() - 1 {
                    assert(s.drop_last()[k] == c);
                    assert(s.drop_last().contains(c));
                    assert(r.contains(c));
                    let m = choose|m: int| 0 <= m < r.len() && r[m] == c;
                    if s.last().addr != a {
                        assert(r.push(s.last())[m] == c);
                    }
                } else {
                    assert(r.push(s.last())[r.len() as int] == c);
                }
            }
            if without_addr(s, a).contains(c) {
                let k = choose|k: int| 0 <= k < without_addr(s, a).len() && without_addr(s, a)[k] == c;
                if k < r.len() {
                    assert(r.contains(c));
                    let m = choose|m: int| 0 <= m < s.drop_last().len() && s.drop_last()[m] == c;
                    assert(s[m] == c);
                } else {
                    assert(s[s.len() - 1] == c);
                }
            }
        }
    }
}

/// A disconnect forgets its sender and keeps every other client.
pub proof fn lemma_disconnect_forgets(s: Seq<ClientInfo>, p: PacketModel, a: ClientAddr, now: u64)
    requires
        p.packet_type == PacketType::Disconnect,
    ensures
        !has_addr(registry_after(s, p, a, now), a),
        forall|c: ClientInfo| c.addr != a && s.contains(c) ==> #[trigger] registry_after(s, p, a, now).contains(c),
{
    lemma_without_addr_members(s, a);
    let t = registry_after(s, p, a, now);
    if has_addr(t, a) {
        let i = choose|i: int| 0 <= i < t.len() && #[trigger] t[i].addr == a;
        assert(t.contains(t[i]));
    }
}

/// Sweeping keeps exactly the fresh clients.
pub proof fn lemma_sweep_keeps_fresh(s: Seq<ClientInfo>, now: u64)
    ensures
        forall|c: ClientInfo| #[trigger] fresh_clients(s, now).contains(c) <==> (s.contains(c) && is_fresh(c, now)),
    decreases s.len(),
{
    if s.len() > 0 {
        let r = fresh_clients(s.drop_last(), now);
        lemma_sweep_keeps_fresh(s.drop_last(), now);
        assert forall|c: ClientInfo| #[trigger] fresh_clients(s, now).contains(c) <==> (s.contains(c) && is_fresh(c, now)) by {
            if s.contains(c) && is_fresh(c, now) {
                let k = choose|k: int| 0 <= k < s.len() && s[k] == c;
                if k < s.len() - 1 {
                    assert(s.drop_last()[k] == c);
                    assert(s.drop_last().contains(c));
                    assert(r.contains(c));
                    let m = choose|m: int| 0 <= m < r.len() && r[m] == c;
                    if is_fresh(s.last(), now) {
                        assert(r.push(s.last())[m] == c);
                    }
                } else {
                    assert(r.push(s.last())[r.len() as int] == c);
                }
            }
            if fresh_clients(s, now).contains(c) {
                let k = choose|k: int| 0 <= k < fresh_clients(s, now).len() && fresh_clients(s, now)[k] == c;
                if k < r.len() {
                    assert(r.contains(c));
                    let m = choose|m: int| 0 <= m < s.drop_last().len() && s.drop_last()[m] == c;
                    assert(s[m] == c);
                } else {
                    assert(s[s.len() - 1] == c);
                }
            }
        }
    }
}

/// Whether the list of clients is due for a sweep: more than the cleanup
/// interval since the last one.
pub fn cleanup_due(last_cleanup_ms: u64, now_ms: u64) -> (r: bool)
    ensures
        r == (elapsed(last_cleanup_ms, now_ms) > CLEANUP_INTERVAL_MS),
{
    now_ms.saturating_sub(last_cleanup_ms) > CLEANUP_INTERVAL_MS
}

/// The clients connected to the server, in the order they connected.
pub struct ClientRegistry {
    clients: Vec<ClientInfo>,
}

impl View for ClientRegistry {
    type V = Seq<ClientInfo>;

    closed spec fn view(&self) -> Seq<ClientInfo> {
        self.clients@
    }
}

impl ClientRegistry {
    /// No address is registered twice.
    pub open spec fn wf(&self) -> bool {
        distinct_addrs(self@)
    }

    /// An empty list.
    pub fn new() -> (r: Self)
        ensures
            r@ == Seq::<ClientInfo>::empty(),
            r.wf(),
    {
        ClientRegistry { clients: Vec::new() }
    }

    /// The connected clients.
    pub fn clients(&self) -> (c: &Vec<ClientInfo>)
        ensures
            c@ == self@,
    {
        &self.clients
    }

    /// The position of the client at `addr`.
    fn find(&self, addr: ClientAddr) -> (r: Option<usize>)
        ensures
            match r {
                Some(i) => i < self@.len() && self@[i as int].addr == addr,
                None => !has_addr(self@, addr),
            },
    {
        let mut i: usize = 0;
        while i < self.clients.len()
            invariant
                i <= self.clients@.len(),
                forall|k: int| 0 <= k < i ==> self.clients@[k].addr != addr,
            decreases self.clients@.len() - i,
        {
            if self.clients[i].addr == addr {
                return Some(i);
            }
            i = i + 1;
        }
        None
    }

    /// Marks the client at `addr`, if any, as seen at `now_ms`.
    fn touch(&mut self, addr: ClientAddr, now_ms: u64)
        requires
            old(self).wf(),
        ensures
            final(self)@ == touched(old(self)@, addr, now_ms),
            final(self).wf(),
    {
        let ghost s = self@;
        match self.find(addr) {
            Some(i) => {
                let c = self.clients[i];
                self.clients.set(i, ClientInfo { last_seen_ms: now_ms, ..c });
                assert forall|k: int| 0 <= k < s.len() && k != i implies s[k].addr != addr by {
                    if k < i {
                        assert(s[k].addr != s[i as int].addr);
                    } else {
                        assert(s[i as int].addr != s[k].addr);
                    }
                }
                assert(self@ =~= touched(s, addr, now_ms));
            },
            None => {
                assert(self@ =~= touched(s, addr, now_ms));
            },
        }
    }

    /// Forgets the client at `addr`.
    fn remove(&mut self, addr: ClientAddr)
        requires
            old(self).wf(),
        ensures
            final(self)@ == without_addr(old(self)@, addr),
            final(self).wf(),
    {
        let ghost s = self@;
        let mut kept: Vec<ClientInfo> = Vec::new();
        let mut i: usize = 0;
        while i < self.clients.len()
            invariant
                s == self.clients@,
                distinct_addrs(s),
                i <= s.len(),
                kept@ == without_addr(s.take(i as int), addr),
                distinct_addrs(kept@),
                forall|k: int| #![trigger kept@[k]] 0 <= k < kept@.len() ==> exists|j: int| 0 <= j < i && #[trigger] s[j].addr == kept@[k].addr,
            decreases s.len() - i,
        {
            let c = self.clients[i];
            assert(s.take(i + 1).drop_last() =~= s.take(i as int));
            if c.addr != addr {
                assert forall|k: int| 0 <= k < kept@.len() implies kept@[k].addr != c.addr by {
                    let j = choose|j: int| 0 <= j < i && #[trigger] s[j].addr == kept@[k].addr;
                    assert(s[j].addr != s[i as int].addr);
                }
                kept.push(c);
                assert forall|k: int| #![trigger kept@[k]] 0 <= k < kept@.len() implies exists|j: int| 0 <= j < i + 1 && #[trigger] s[j].addr == kept@[k].addr by {
                    if k == kept@.len() - 1 {
                        assert(s[i as int].addr == kept@[k].addr);
                    } else {
                        let j = choose|j: int| 0 <= j < i && #[trigger] s[j].addr == kept@[k].addr;
                        assert(s[j].addr == kept@[k].addr);
                    }
                }
            }
            i = i + 1;
        }
        assert(s.take(s.len() as int) =~= s);
        self.clients = kept;
    }

    /// Drops the clients not heard from for the timeout before `now_ms`.
    pub fn sweep(&mut self, now_ms: u64)
        requires
            old(self).wf(),
        ensures
            final(self)@ == fresh_clients(old(self)@, now_ms),
            final(self).wf(),
    {
        let ghost s = self@;
        let mut kept: Vec<ClientInfo> = Vec::new();
        let mut i: usize = 0;
        while i < self.clients.len()
            invariant
                s == self.clients@,
                distinct_addrs(s),
                i <= s.len(),
                kept@ == fresh_clients(s.take(i as int), now_ms),
                distinct_addrs(kept@),
                forall|k: int| #![trigger kept@[k]] 0 <= k < kept@.len() ==> exists|j: int| 0 <= j < i && #[trigger] s[j].addr == kept@[k].addr,
            decreases s.len() - i,
        {
            let c = self.clients[i];
            assert(s.take(i + 1).drop_last() =~= s.take(i as int));
            if now_ms.saturating_sub(c.last_seen_ms) < CLIENT_TIMEOUT_MS {
                assert forall|k: int| 0 <= k < kept@.len() implies kept@[k].addr != c.addr by {
                    let j = choose|j: int| 0 <= j < i && #[trigger] s[j].addr == kept@[k].addr;
                    assert(s[j].addr != s[i as int].addr);
                }
                kept.push(c);
                assert forall|k: int| #![trigger kept@[k]] 0 <= k < kept@.len() implies exists|j: int| 0 <= j < i + 1 && #[trigger] s[j].addr == kept@[k].addr by {
                    if k == kept@.len() - 1 {
                        assert(s[i as int].addr == kept@[k].addr);
                    } else {
                        let j = choose|j: int| 0 <= j < i && #[trigger] s[j].addr == kept@[k].addr;
                        assert(s[j].addr == kept@[k].addr);
                    }
                }
            }
            i = i + 1;
        }
        assert(s.take(s.len() as int) =~= s);
        self.clients = kept;
    }

    /// Takes in `packet`, received from `addr` at `now_ms`: updates the list
    /// of clients (see `registry_after`) and says what to do (see `action_is`).
    pub fn handle_packet(&mut self, packet: &UdpPacket, addr: ClientAddr, now_ms: u64) -> (action: ServerAction)
        requires
            old(self).wf(),
        ensures
            final(self)@ == registry_after(old(self)@, packet@, addr, now_ms),
            final(self).wf(),
            action_is(action, packet@),
    {
        match packet.packet_type {
            PacketType::Connect => {
                match self.find(addr) {
                    Some(_) => {
                        self.touch(addr, now_ms);
                    },
                    None => {
                        let compression_enabled = packet.flags.contains(PacketFlags::compressed());
                        let c = ClientInfo { addr, last_seen_ms: now_ms, packet_counter: 0, compression_enabled };
                        let ghost s = self@;
                        self.clients.push(c);
                        assert(self@ == s.push(new_client(packet@, addr, now_ms)));
                    },
                }
                ServerAction::Reply(UdpPacket::new_ack(packet.sequence))
            },
            PacketType::Command => {
                self.touch(addr, now_ms);
                match UdpCommand::from_payload(packet.payload.as_slice()) {
                    Some(cmd) => ServerAction::Apply(cmd),
                    None => ServerAction::Nothing,
                }
            },
            PacketType::Ping => ServerAction::Reply(UdpPacket::new_pong(packet.sequence)),
            PacketType::Disconnect => {
                self.remove(addr);
                ServerAction::Nothing
            },
            _ => ServerAction::Nothing,
        }
    }
}

/// Counters of what the server sent since they were last reported.
pub struct TransmissionStats {
    pub packets_sent: u64,
    pub bytes_sent: u64,
    pub start_ms: u64,
    pub last_print_ms: u64,
}

impl TransmissionStats {
    /// Zero counters, started at `now_ms`.
    pub fn new(now_ms: u64) -> (s: Self)
        ensures
            s.packets_sent == 0,
            s.bytes_sent == 0,
            s.start_ms == now_ms,
            s.last_print_ms == now_ms,
    {
        TransmissionStats { packets_sent: 0, bytes_sent: 0, start_ms: now_ms, last_print_ms: now_ms }
    }

    /// Counts one packet of `bytes` bytes.
    pub fn add_packet(&mut self, bytes: usize)
        requires
            old(self).packets_sent < u64::MAX,
            old(self).bytes_sent + bytes <= u64::MAX,
        ensures
            final(self).packets_sent == old(self).packets_sent + 1,
            final(self).bytes_sent == old(self).bytes_sent + bytes,
            final(self).start_ms == old(self).start_ms,
            final(self).last_print_ms == old(self).last_print_ms,
    {
        self.packets_sent = self.packets_sent + 1;
        self.bytes_sent = self.bytes_sent + bytes as u64;
    }

    /// Whether the counters are due for a report: more than the report
    /// interval since the last one.
    pub fn should_print(&self, now_ms: u64) -> (r: bool)
        ensures
            r == (elapsed(self.last_print_ms, now_ms) > STATS_INTERVAL_MS),
    {
        now_ms.saturating_sub(self.last_print_ms) > STATS_INTERVAL_MS
    }

    /// Hands out the packets and bytes counted and the time they were
    /// counted over, and starts counting afresh at `now_ms`.
    pub fn print_and_reset(&mut self, now_ms: u64) -> (r: (u64, u64, u64))
        ensures
            r.0 == old(self).packets_sent,
            r.1 == old(self).bytes_sent,
            r.2 == elapsed(old(self).last_print_ms, now_ms),
            final(self).packets_sent == 0,
            final(self).bytes_sent == 0,
            final(self).last_print_ms == now_ms,
            final(self).start_ms == old(self).start_ms,
    {
        let r = (self.packets_sent, self.bytes_sent, now_ms.saturating_sub(self.last_print_ms));
        self.packets_sent = 0;
        self.bytes_sent = 0;
        self.last_print_ms = now_ms;
        r
    }
}

} // verus!
