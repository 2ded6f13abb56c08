//! The rendezvous server's bookkeeping: rooms, the bridges that pair the two
//! ends of a pipe, and the relay table that forwards datagrams between them.
use crate::protocol::{be_to_u32, be_value, CommunicatePacket, Identity, Identity2, Operate};
use std::collections::{HashMap, HashSet};
use vstd::prelude::*;
use vstd::std_specs::hash::spec_keys_iter;
use vstd::std_specs::iter::IteratorSpec;

verus! {

broadcast use vstd::std_specs::hash::group_hash_axioms;

/// The rendezvous server.
pub struct Server;

/// An IPv4 address and port.
#[derive(Clone, Copy, Debug, PartialEq, Eq, Structural)]
pub struct Endpoint {
    /// The address, most significant octet first.
    pub ip: u32,
    pub port: u16,
}

/// The number that stands for an endpoint in the relay's table.
pub open spec fn endpoint_key(e: Endpoint) -> u64 {
    (e.ip * 65536 + e.port) as u64
}

impl Endpoint {
    /// The number that stands for this endpoint in the relay's table.
    pub fn key(&self) -> (k: u64)
        ensures
            k == endpoint_key(*self),
    {
        let ip = self.ip as u64;
        assert(ip * 65536 + self.port < 0x1_0000_0000_0000) by (nonlinear_arith)
            requires
                ip <= u32::MAX,
                self.port <= u16::MAX,
        ;
        ip * 65536 + self.port as u64
    }
}

/// Two endpoints that stand for the same number are the same endpoint.
pub proof fn lemma_endpoint_key_injective(a: Endpoint, b: Endpoint)
    requires
        endpoint_key(a) == endpoint_key(b),
    ensures
        a == b,
{
    let ai = a.ip as int;
    let bi = b.ip as int;
    let ap = a.port as int;
    let bp = b.port as int;
    assert(ai * 65536 + ap < 0x1_0000_0000_0000 && bi * 65536 + bp < 0x1_0000_0000_0000)
        by (nonlinear_arith)
        requires
            0 <= ai <= u32::MAX,
            0 <= bi <= u32::MAX,
            0 <= ap <= u16::MAX,
            0 <= bp <= u16::MAX,
    ;
    assert(ai == bi && ap == bp) by (nonlinear_arith)
        requires
            ai * 65536 + ap == bi * 65536 + bp,
            0 <= ap < 65536,
            0 <= bp < 65536,
    ;
}

/// What a first message on the server's stream asks for.
#[derive(Clone, Copy, Debug, PartialEq, Eq, Structural)]
pub enum Request {
    /// A host asks for a room.
    OpenRoom,
    /// A player asks to join this room.
    Join(Identity),
    /// Anything else: answered with a refusal.
    Other,
}

/// Sorts the first message on the server's stream (`None` where it was no
/// message at all).
pub fn classify_request(msg: Option<Operate>) -> (r: Request)
    ensures
        msg == Some(Operate::Open) ==> r == Request::OpenRoom,
        (msg matches Some(Operate::HelloTo(id)) ==> r == Request::Join(id)),
        !(msg == Some(Operate::Open) || msg matches Some(Operate::HelloTo(_))) ==> r
            == Request::Other,
{
    match msg {
        Some(Operate::Open) => Request::OpenRoom,
        Some(Operate::HelloTo(id)) => Request::Join(id),
        _ => Request::Other,
    }
}

/// Why the server turned a host away.
#[derive(Clone, Copy, Debug, PartialEq, Eq, Structural)]
pub enum ServerError {
    /// Every room number is taken.
    RoomPoolFull,
}

/// The number that every room gets.
pub const ROOM_ID: Identity = 123456;

/// Largest number of rooms.
pub const MAX_ROOMS: usize = 0xffffffff;

/// A room: how to reach its host's stream, and the host's endpoint.
pub struct Room<T> {
    pub tx: T,
    pub addr: Endpoint,
}

/// The open rooms by number.
pub struct Lobby<T> {
    rooms: HashMap<Identity, Room<T>>,
}

impl<T> Lobby<T> {
    pub closed spec fn rooms(&self) -> Map<Identity, Room<T>> {
        self.rooms@
    }

    /// No room is open.
    pub fn new() -> (l: Lobby<T>)
        ensures
            l.rooms() == Map::<Identity, Room<T>>::empty(),
    {
        Lobby { rooms: HashMap::new() }
    }

    /// The number for a new room, unless the pool of rooms is full.
    pub fn next_room(&self) -> (r: Result<Identity, ServerError>)
        ensures
            r == (if self.rooms().len() >= MAX_ROOMS {
                Err(ServerError::RoomPoolFull)
            } else {
                Ok(ROOM_ID)
            }),
    {
        if self.rooms.len() >= MAX_ROOMS {
            Err(ServerError::RoomPoolFull)
        } else {
            Ok(ROOM_ID)
        }
    }

    /// Opens room `id`, in place of any room of that number.
    pub fn insert_room(&mut self, id: Identity, room: Room<T>)
        ensures
            final(self).rooms() == old(self).rooms().insert(id, room),
    {
        self.rooms.insert(id, room);
    }

    /// Closes room `id`.
    pub fn close_room(&mut self, id: Identity)
        ensures
            final(self).rooms() == old(self).rooms().remove(id),
    {
        self.rooms.remove(&id);
    }

    /// Room `id`, if it is open.
    pub fn room(&self, id: Identity) -> (r: Option<&Room<T>>)
        ensures
            r is Some <==> self.rooms().contains_key(id),
            r matches Some(room) ==> *room == self.rooms()[id],
    {
        self.rooms.get(&id)
    }
}

/// One end of a bridge: the address it is expected from, or the endpoint it
/// dialled from.
#[derive(Clone, Copy, Debug, PartialEq, Eq, Structural)]
pub enum BridgePeer {
    Empty(u32),
    Ready(Endpoint),
}

/// A pipe that the relay is setting up between two addresses, and how long
/// it has waited for them.
#[derive(Clone, Copy, Debug, PartialEq, Eq, Structural)]
pub struct Bridge {
    pub peer1: BridgePeer,
    pub peer2: BridgePeer,
    pub timeout: u8,
}

/// Why a bridge would not take an endpoint.
#[derive(Clone, Copy, Debug, PartialEq, Eq, Structural)]
pub enum BridgeError {
    /// No end of the bridge waits for the endpoint's address.
    CannotUpgrade,
}

impl Bridge {
    /// Whether `addr` is taken: an end still waits for its address.
    pub open spec fn accepts(self, addr: Endpoint) -> bool {
        ||| self.peer1 == BridgePeer::Empty(addr.ip)
        ||| self.peer2 == BridgePeer::Empty(addr.ip)
    }

    /// The bridge after `addr` is taken: the first end that waits for its
    /// address now holds it.
    pub open spec fn upgraded(self, addr: Endpoint) -> Bridge {
        if self.peer1 == BridgePeer::Empty(addr.ip) {
            Bridge { peer1: BridgePeer::Ready(addr), ..self }
        } else if self.peer2 == BridgePeer::Empty(addr.ip) {
            Bridge { peer2: BridgePeer::Ready(addr), ..self }
        } else {
            self
        }
    }

    /// Both ends have dialled.
    pub open spec fn is_connected(self) -> bool {
        self.peer1 is Ready && self.peer2 is Ready
    }

    /// A bridge that waits for one end from `ip1` and one from `ip2`, and has
    /// not waited yet.
    pub open spec fn new_spec(ip1: u32, ip2: u32) -> Bridge {
        Bridge { peer1: BridgePeer::Empty(ip1), peer2: BridgePeer::Empty(ip2), timeout: 0 }
    }

    /// A bridge that waits for one end from `ip1` and one from `ip2`.
    pub fn new(ip1: u32, ip2: u32) -> (b: Bridge)
        ensures
            b == Bridge::new_spec(ip1, ip2),
    {
        Bridge { peer1: BridgePeer::Empty(ip1), peer2: BridgePeer::Empty(ip2), timeout: 0 }
    }

    /// Takes `addr` at the first end that waits for its address; refuses it
    /// where no end does, and leaves the bridge as it was.
    pub fn upgrade(&mut self, addr: Endpoint) -> (r: Result<(), BridgeError>)
        ensures
            r is Ok <==> old(self).accepts(addr),
            *final(self) == old(self).upgraded(addr),
    {
        if let BridgePeer::Empty(ip) = self.peer1 {
            if ip == addr.ip {
                self.peer1 = BridgePeer::Ready(addr);
                return Ok(());
            }
        }
        if let BridgePeer::Empty(ip) = self.peer2 {
            if ip == addr.ip {
                self.peer2 = BridgePeer::Ready(addr);
                return Ok(());
            }
        }
        Err(BridgeError::CannotUpgrade)
    }

    /// Whether both ends have dialled.
    pub fn connected(&self) -> (r: bool)
        ensures
            r == self.is_connected(),
    {
        matches!(self.peer1, BridgePeer::Ready(_)) && matches!(self.peer2, BridgePeer::Ready(_))
    }

    /// The two endpoints of a bridge whose ends have both dialled.
    pub fn finish(self) -> (r: (Endpoint, Endpoint))
        requires
            self.is_connected(),
        ensures
            r == (self.peer1->Ready_0, self.peer2->Ready_0),
    {
        match (self.peer1, self.peer2) {
            (BridgePeer::Ready(a1), BridgePeer::Ready(a2)) => (a1, a2),
            _ => {
                assert(false);
                (Endpoint { ip: 0, port: 0 }, Endpoint { ip: 0, port: 0 })
            },
        }
    }
}

/// A bridge between `ip1` and `ip2` connects once an endpoint from each has
/// dialled, in either order, and pairs the two endpoints: in the order of the
/// bridge's ends where the addresses differ or the first end dialled first.
pub proof fn lemma_bridge_connects(ip1: u32, ip2: u32, x: Endpoint, y: Endpoint)
    requires
        x.ip == ip1,
        y.ip == ip2,
    ensures
        ({
            let b = Bridge { peer1: BridgePeer::Empty(ip1), peer2: BridgePeer::Empty(ip2), timeout: 0 };
            &&& b.accepts(x)
            &&& b.upgraded(x).accepts(y)
            &&& b.upgraded(x).upgraded(y).is_connected()
            &&& b.upgraded(x).upgraded(y).peer1 == BridgePeer::Ready(x)
            &&& b.upgraded(x).upgraded(y).peer2 == BridgePeer::Ready(y)
            &&& b.accepts(y)
            &&& b.upgraded(y).accepts(x)
            &&& b.upgraded(y).upgraded(x).is_connected()
            &&& ip1 != ip2 ==> b.upgraded(y).upgraded(x).peer1 == BridgePeer::Ready(x)
                && b.upgraded(y).upgraded(x).peer2 == BridgePeer::Ready(y)
        }),
{
}

/// A connected bridge takes no more endpoints.
pub proof fn lemma_connected_bridge_is_closed(b: Bridge, addr: Endpoint)
    requires
        b.is_connected(),
    ensures
        !b.accepts(addr),
        b.upgraded(addr) == b,
{
}

/// Where the relay sends what an endpoint sends, and which idle clock its
/// pipe runs on. Both ends of a pipe share the clock; only the first end's
/// entry advances it.
#[derive(Clone, Copy, Debug, PartialEq, Eq, Structural)]
pub struct Link {
    pub peer: Endpoint,
    pub clock: u64,
    pub primary: bool,
}

/// What the relay holds: the counter from which pipe numbers are handed out,
/// the bridges being set up by number, the relay table by endpoint number,
/// and the idle clocks.
pub struct RelayView {
    pub counter: u32,
    pub bridges: Map<u32, Bridge>,
    pub table: Map<u64, Link>,
    pub idle: Map<u64, u8>,
}

/// Seconds that one sweep stands for, and seconds after which a bridge or a
/// pipe without traffic is dropped.
pub const SWEEP_STEP: u8 = 5;

pub const EXPIRY: u8 = 20;

/// Every entry's clock exists, and no clock or bridge has reached expiry.
pub open spec fn relay_wf(v: RelayView) -> bool {
    &&& forall|k: u64| v.table.contains_key(k) ==> v.idle.contains_key(#[trigger] v.table[k].clock)
    &&& forall|c: u64| v.idle.contains_key(c) ==> #[trigger] v.idle[c] < EXPIRY
    &&& forall|id: u32| v.bridges.contains_key(id) ==> #[trigger] v.bridges[id].timeout < EXPIRY
}

/// `k` steps past `v`, wrapping past the largest number to 0.
pub open spec fn id_after(v: u32, k: int) -> u32 {
    ((v + k) % 0x1_0000_0000) as u32
}

/// `id` is the first number after `counter`, wrapping round, that `taken`
/// does not hold; the counter itself comes last.
pub open spec fn is_next_free(counter: u32, taken: Set<u32>, id: u32) -> bool {
    exists|k: int|
        1 <= k <= 0x1_0000_0000 && id == id_after(counter, k) && !taken.contains(id) && forall|j: int|
            1 <= j < k ==> taken.contains(#[trigger] id_after(counter, j))
}

proof fn lemma_id_after_step(v: u32, k: int)
    requires
        0 <= k,
    ensures
        id_after(v, k + 1) == (if id_after(v, k) == u32::MAX {
            0
        } else {
            id_after(v, k) + 1
        }),
{
    let m = 0x1_0000_0000int;
    let x = v + k;
    assert(((x % m) + 1) % m == (x + 1) % m) by (nonlinear_arith)
        requires
            m == 0x1_0000_0000int,
            x >= 0,
    ;
}

proof fn lemma_id_after_distinct(v: u32, i: int, j: int)
    requires
        1 <= i < j <= 0x1_0000_0000,
    ensures
        id_after(v, i) != id_after(v, j),
{
    let m = 0x1_0000_0000int;
    assert((v + i) % m != (v + j) % m) by (nonlinear_arith)
        requires
            m == 0x1_0000_0000int,
            1 <= i < j <= m,
            v >= 0,
    ;
}

/// What the relay does with a datagram it received.
#[derive(Clone, Copy, Debug, PartialEq, Eq, Structural)]
pub enum Route {
    /// Send the datagram on to this endpoint, the sender's peer.
    Forward(Endpoint),
    /// Send the datagram back to its sender.
    Echo,
    /// Nothing to send.
    Quiet,
    /// A datagram of unknown kind on a pipe: dropped, worth a log line.
    Malformed,
    /// A bridge took the sender as one end and waits for the other.
    Pending,
    /// The bridge named does not wait for the sender's address: dropped,
    /// worth a log line.
    Refused,
    /// The bridge is complete: send the datagram to both ends, which now
    /// form a pipe.
    Bridged(Endpoint, Endpoint),
    /// Neither on a pipe nor dialling one: dropped, worth a log line.
    Stray,
}

/// The pipe number that a dialling datagram names, in its bytes 1 to 4.
pub open spec fn named_pipe(buf: Seq<u8>) -> u32 {
    if buf.len() >= 5 {
        be_value(buf.subrange(1, 5))
    } else {
        0
    }
}

/// What the relay `v` does with a datagram of `len` bytes of kind `kind` from
/// `from` that names pipe `cid`, where a pipe that it sets up runs on the
/// idle clock `clock`, and the relay after it.
pub open spec fn routed(v: RelayView, from: Endpoint, kind: u8, len: nat, cid: u32, clock: u64) -> (
    RelayView,
    Route,
) {
    let k = endpoint_key(from);
    if v.table.contains_key(k) {
        let l = v.table[k];
        let after = RelayView { idle: v.idle.insert(l.clock, 0), ..v };
        if kind == CommunicatePacket::DATA {
            (after, Route::Forward(l.peer))
        } else if kind == CommunicatePacket::CONNECT {
            (after, Route::Echo)
        } else if kind == CommunicatePacket::HEARTBEAT {
            (after, Route::Quiet)
        } else {
            (after, Route::Malformed)
        }
    } else if kind == CommunicatePacket::CONNECT && len == 5 {
        if !v.bridges.contains_key(cid) {
            (v, Route::Quiet)
        } else if !v.bridges[cid].accepts(from) {
            (v, Route::Refused)
        } else {
            let b = v.bridges[cid].upgraded(from);
            if !b.is_connected() {
                (RelayView { bridges: v.bridges.insert(cid, b), ..v }, Route::Pending)
            } else {
                let a1 = b.peer1->Ready_0;
                let a2 = b.peer2->Ready_0;
                (
                    RelayView {
                        counter: v.counter,
                        bridges: v.bridges.remove(cid),
                        table: v.table.insert(
                            endpoint_key(a1),
                            Link { peer: a2, clock, primary: true },
                        ).insert(endpoint_key(a2), Link { peer: a1, clock, primary: false }),
                        idle: v.idle.insert(clock, 0),
                    },
                    Route::Bridged(a1, a2),
                )
            }
        }
    } else if kind == CommunicatePacket::HEARTBEAT {
        (v, Route::Quiet)
    } else {
        (v, Route::Stray)
    }
}

/// The idle clock of the pipe that a route set up: the one in the second
/// end's entry.
pub open spec fn clock_used(v: RelayView, r: Route) -> u64 {
    match r {
        Route::Bridged(_, a2) => v.table[endpoint_key(a2)].clock,
        _ => 0,
    }
}

/// `k` steps past `v`, wrapping past the largest number to 0.
pub open spec fn clock_after(v: u64, k: int) -> u64 {
    ((v + k) % 0x1_0000_0000_0000_0000) as u64
}

proof fn lemma_clock_after_step(v: u64, k: int)
    requires
        0 <= k,
    ensures
        clock_after(v, k + 1) == (if clock_after(v, k) == u64::MAX {
            0
        } else {
            clock_after(v, k) + 1
        }),
{
    let m = 0x1_0000_0000_0000_0000int;
    let x = v + k;
    assert(((x % m) + 1) % m == (x + 1) % m) by (nonlinear_arith)
        requires
            m == 0x1_0000_0000_0000_0000int,
            x >= 0,
    ;
}

proof fn lemma_clock_after_distinct(v: u64, i: int, j: int)
    requires
        0 <= i < j < 0x1_0000_0000_0000_0000,
    ensures
        clock_after(v, i) != clock_after(v, j),
{
    let m = 0x1_0000_0000_0000_0000int;
    assert((v + i) % m != (v + j) % m) by (nonlinear_arith)
        requires
            m == 0x1_0000_0000_0000_0000int,
            0 <= i < j < m,
            v >= 0,
    ;
}

/// Some first end of a pipe runs on clock `c`.
pub open spec fn advances(v: RelayView, c: u64) -> bool {
    exists|k: u64| #![trigger v.table[k]] v.table.contains_key(k) && v.table[k].clock == c && v.table[k].primary
}

/// Some end of a pipe runs on clock `c`.
pub open spec fn in_use(v: RelayView, c: u64) -> bool {
    exists|k: u64| #![trigger v.table[k]] v.table.contains_key(k) && v.table[k].clock == c
}

/// Clock `c` after a sweep has advanced it where a first end runs on it.
pub open spec fn advanced(v: RelayView, c: u64) -> int {
    if advances(v, c) {
        v.idle[c] + SWEEP_STEP
    } else {
        v.idle[c] as int
    }
}

/// The relay after a sweep: every bridge has waited one step longer and is
/// dropped once it has waited for the expiry time; every clock that a first
/// end runs on advances one step; the entries whose clock reached the expiry
/// time are dropped, and with them the clocks that no entry runs on any more.
pub open spec fn swept(v: RelayView) -> RelayView {
    RelayView {
        counter: v.counter,
        bridges: Map::new(
            |id: u32| v.bridges.contains_key(id) && v.bridges[id].timeout + SWEEP_STEP < EXPIRY,
            |id: u32| Bridge { timeout: (v.bridges[id].timeout + SWEEP_STEP) as u8, ..v.bridges[id] },
        ),
        table: Map::new(
            |k: u64| v.table.contains_key(k) && advanced(v, v.table[k].clock) < EXPIRY,
            |k: u64| v.table[k],
        ),
        idle: Map::new(
            |c: u64| v.idle.contains_key(c) && in_use(v, c) && advanced(v, c) < EXPIRY,
            |c: u64| advanced(v, c) as u8,
        ),
    }
}

proof fn lemma_take_one_more<A>(s: Seq<A>, i: int, x: A)
    requires
        0 <= i < s.len(),
    ensures
        s.take(i + 1).contains(x) <==> (s.take(i).contains(x) || x == s[i]),
{
    if x == s[i] {
        assert(s.take(i + 1)[i] == x);
    }
    if s.take(i).contains(x) {
        let j = choose|j: int| 0 <= j < i && #[trigger] s.take(i)[j] == x;
        assert(s.take(i + 1)[j] == x);
    }
    if s.take(i + 1).contains(x) && x != s[i] {
        let j = choose|j: int| 0 <= j < i + 1 && #[trigger] s.take(i + 1)[j] == x;
        assert(s.take(i)[j] == x);
    }
}

/// The relay's bookkeeping.
pub struct Relay {
    counter: u32,
    bridges: HashMap<u32, Bridge>,
    table: HashMap<u64, Link>,
    idle: HashMap<u64, u8>,
}

impl View for Relay {
    type V = RelayView;

    closed spec fn view(&self) -> RelayView {
        RelayView { counter: self.counter, bridges: self.bridges@, table: self.table@, idle: self.idle@ }
    }
}

impl Relay {
    /// An empty relay whose pipe numbers start after `seed`.
    pub fn new(seed: u32) -> (r: Relay)
        ensures
            relay_wf(r@),
            r@.counter == seed,
            r@.bridges == Map::<u32, Bridge>::empty(),
            r@.table == Map::<u64, Link>::empty(),
            r@.idle == Map::<u64, u8>::empty(),
    {
        Relay { counter: seed, bridges: HashMap::new(), table: HashMap::new(), idle: HashMap::new() }
    }

    /// How many bridges are being set up.
    pub fn bridge_count(&self) -> (n: usize)
        ensures
            n == self@.bridges.len(),
    {
        self.bridges.len()
    }

    /// Hands out the first pipe number after the counter that no bridge
    /// holds, and moves the counter to it. There must be such a number.
    pub fn find_id(&mut self) -> (id: Identity2)
        requires
            old(self)@.bridges.len() <= u32::MAX,
        ensures
            is_next_free(old(self)@.counter, old(self)@.bridges.dom(), id),
            final(self)@ == (RelayView { counter: id, ..old(self)@ }),
    {
        let ghost start = self.counter;
        let ghost dom = self.bridges@.dom();
        let ghost mut tried: Set<u32> = Set::empty();
        let ghost mut k: int = 0;
        let mut val = self.counter;
        loop
            invariant
                self@ == old(self)@,
                dom == self.bridges@.dom(),
                dom.finite(),
                dom.len() <= u32::MAX,
                start == old(self)@.counter,
                0 <= k <= dom.len(),
                val == id_after(start, k),
                tried.finite(),
                tried.len() == k,
                tried.subset_of(dom),
                forall|j: int| 1 <= j <= k ==> tried.contains(#[trigger] id_after(start, j)),
                forall|j: int| 1 <= j <= k ==> dom.contains(#[trigger] id_after(start, j)),
                forall|x: u32|
                    tried.contains(x) ==> exists|j: int| 1 <= j <= k && x == #[trigger] id_after(start, j),
            decreases dom.len() - k,
        {
            proof {
                lemma_id_after_step(start, k);
            }
            if val == 0xffffffff {
                val = 0;
            } else {
                val = val + 1;
            }
            proof {
                k = k + 1;
            }
            if !self.bridges.contains_key(&val) {
                self.counter = val;
                assert(1 <= k <= 0x1_0000_0000);
                return val;
            }
            proof {
                assert forall|j: int| 1 <= j < k implies id_after(start, j) != val by {
                    lemma_id_after_distinct(start, j, k);
                }
                assert(!tried.contains(val));
                tried = tried.insert(val);
                assert forall|x: u32| tried.contains(x) implies exists|j: int|
                    1 <= j <= k && x == #[trigger] id_after(start, j) by {
                    if x == val {
                        assert(x == id_after(start, k));
                    }
                }
                vstd::set_lib::lemma_len_subset(tried, dom);
            }
        }
    }

    /// Sets up the two pipes of a player who joins a room: hands out two pipe
    /// numbers one after the other (both searched among the bridges as they
    /// were) and puts a bridge between the player's and the host's address
    /// under each.
    pub fn open_bridges(&mut self, joiner_ip: u32, host_ip: u32) -> (ids: (Identity2, Identity2))
        requires
            old(self)@.bridges.len() <= u32::MAX,
            relay_wf(old(self)@),
        ensures
            relay_wf(final(self)@),
            is_next_free(old(self)@.counter, old(self)@.bridges.dom(), ids.0),
            is_next_free(ids.0, old(self)@.bridges.dom(), ids.1),
            final(self)@ == (RelayView {
                counter: ids.1,
                bridges: old(self)@.bridges.insert(ids.0, Bridge::new_spec(joiner_ip, host_ip)).insert(
                    ids.1,
                    Bridge::new_spec(joiner_ip, host_ip),
                ),
                ..old(self)@
            }),
    {
        let cid1 = self.find_id();
        let cid2 = self.find_id();
        self.bridges.insert(cid1, Bridge::new(joiner_ip, host_ip));
        self.bridges.insert(cid2, Bridge::new(joiner_ip, host_ip));
        (cid1, cid2)
    }

    /// An idle clock that no pipe runs on.
    fn fresh_clock(&self) -> (c: u64)
        ensures
            !self@.idle.contains_key(c),
    {
        let n = self.idle.len();
        let ghost dom = self.idle@.dom();
        let ghost mut tried: Set<u64> = Set::empty();
        let ghost mut k: int = 0;
        let mut c: u64 = 0;
        assert(c == clock_after(0, 0));
        while self.idle.contains_key(&c)
            invariant
                dom == self.idle@.dom(),
                dom.finite(),
                dom.len() == n,
                0 <= k <= dom.len(),
                c == clock_after(0, k),
                tried.finite(),
                tried.len() == k,
                tried.subset_of(dom),
                forall|j: int| 0 <= j < k ==> tried.contains(#[trigger] clock_after(0, j)),
                forall|x: u64|
                    tried.contains(x) ==> exists|j: int| 0 <= j < k && x == #[trigger] clock_after(0, j),
            decreases dom.len() - k,
        {
            proof {
                assert forall|j: int| 0 <= j < k implies clock_after(0, j) != c by {
                    lemma_clock_after_distinct(0, j, k);
                }
                assert(!tried.contains(c));
                tried = tried.insert(c);
                assert forall|x: u64| tried.contains(x) implies exists|j: int|
                    0 <= j < k + 1 && x == #[trigger] clock_after(0, j) by {
                    if x == c {
                        assert(x == clock_after(0, k));
                    }
                }
                vstd::set_lib::lemma_len_subset(tried, dom);
                lemma_clock_after_step(0, k);
                k = k + 1;
            }
            if c == u64::MAX {
                c = 0;
            } else {
                c = c + 1;
            }
        }
        c
    }

    /// Decides what to do with a datagram of `len` bytes received into `buf`
    /// from `from`, and updates the relay's books: traffic on a pipe resets
    /// its idle clock; a dialling datagram (kind connect, five bytes) fills in
    /// the bridge it names and, once both ends are in, turns it into a pipe.
    pub fn route(&mut self, from: Endpoint, buf: &[u8], len: usize) -> (r: Route)
        requires
            relay_wf(old(self)@),
            1 <= buf@.len(),
            len <= buf@.len(),
        ensures
            relay_wf(final(self)@),
            (final(self)@, r) == routed(
                old(self)@,
                from,
                buf@[0],
                len as nat,
                named_pipe(buf@),
                clock_used(final(self)@, r),
            ),
            r is Bridged ==> !old(self)@.idle.contains_key(clock_used(final(self)@, r)),
            old(self)@.table.contains_key(endpoint_key(from)) && buf@[0] == CommunicatePacket::DATA
                ==> r == Route::Forward(old(self)@.table[endpoint_key(from)].peer),
    {
        let key = from.key();
        let kind = buf[0];
        let ghost v = self@;
        let ghost cid_spec = named_pipe(buf@);
        let ghost mut witness: u64 = 0;
        let r = match self.table.get(&key) {
            Some(link) => {
                let link = *link;
                self.idle.insert(link.clock, 0);
                if kind == CommunicatePacket::DATA {
                    Route::Forward(link.peer)
                } else if kind == CommunicatePacket::CONNECT {
                    Route::Echo
                } else if kind == CommunicatePacket::HEARTBEAT {
                    Route::Quiet
                } else {
                    Route::Malformed
                }
            },
            None => {
                if kind == CommunicatePacket::CONNECT && len == 5 {
                    let cid = be_to_u32(buf, 1);
                    assert(cid == cid_spec);
                    match self.bridges.get(&cid) {
                        None => Route::Quiet,
                        Some(b) => {
                            let mut bridge = *b;
                            match bridge.upgrade(from) {
                                Err(_) => Route::Refused,
                                Ok(()) => {
                                    if !bridge.connected() {
                                        self.bridges.insert(cid, bridge);
                                        Route::Pending
                                    } else {
                                        self.bridges.remove(&cid);
                                        let (a1, a2) = bridge.finish();
                                        let clock = self.fresh_clock();
                                        self.table.insert(
                                            a1.key(),
                                            Link { peer: a2, clock, primary: true },
                                        );
                                        self.table.insert(
                                            a2.key(),
                                            Link { peer: a1, clock, primary: false },
                                        );
                                        self.idle.insert(clock, 0);
                                        proof {
                                            witness = clock;
                                        }
                                        Route::Bridged(a1, a2)
                                    }
                                },
                            }
                        },
                    }
                } else if kind == CommunicatePacket::HEARTBEAT {
                    Route::Quiet
                } else {
                    Route::Stray
                }
            },
        };
        assert((r is Bridged ==> !v.idle.contains_key(witness)) && (self@, r) == routed(
            v,
            from,
            kind,
            len as nat,
            cid_spec,
            witness,
        ));
        assert(r is Bridged ==> clock_used(self@, r) == witness);
        r
    }

    fn bridge_ids(&self) -> (ids: Vec<u32>)
        ensures
            ids@.to_set() == self@.bridges.dom(),
            ids@.no_duplicates(),
    {
        let ghost keys_seq = spec_keys_iter(&self.bridges).remaining();
        let mut ids: Vec<u32> = Vec::new();
        for k in it: self.bridges.keys()
            invariant
                it.seq() == keys_seq,
                ids@.len() == it.index(),
                forall|i: int| 0 <= i < it.index() ==> ids@[i] == *keys_seq[i],
        {
            ids.push(*k);
        }
        proof {
            assert(ids@ =~= keys_seq.unref());
        }
        ids
    }

    fn table_keys(&self) -> (ks: Vec<u64>)
        ensures
            ks@.to_set() == self@.table.dom(),
            ks@.no_duplicates(),
    {
        let ghost keys_seq = spec_keys_iter(&self.table).remaining();
        let mut ks: Vec<u64> = Vec::new();
        for k in it: self.table.keys()
            invariant
                it.seq() == keys_seq,
                ks@.len() == it.index(),
                forall|i: int| 0 <= i < it.index() ==> ks@[i] == *keys_seq[i],
        {
            ks.push(*k);
        }
        proof {
            assert(ks@ =~= keys_seq.unref());
        }
        ks
    }

    /// One step of the clock that drops what has waited too long.
    pub fn sweep(&mut self)
        requires
            relay_wf(old(self)@),
        ensures
            relay_wf(final(self)@),
            final(self)@ == swept(old(self)@),
            forall|id: u32|
                old(self)@.bridges.contains_key(id) && old(self)@.bridges[id].timeout + SWEEP_STEP
                    < EXPIRY ==> #[trigger] final(self)@.bridges.contains_key(id)
                    && final(self)@.bridges[id] == (Bridge {
                    timeout: (old(self)@.bridges[id].timeout + SWEEP_STEP) as u8,
                    ..old(self)@.bridges[id]
                }),
    {
        let ghost v = self@;
        // bridges
        let ids = self.bridge_ids();
        let mut kept: HashMap<u32, Bridge> = HashMap::new();
        let mut i: usize = 0;
        while i < ids.len()
            invariant
                self@ == v,
                relay_wf(v),
                ids@.to_set() == v.bridges.dom(),
                i <= ids@.len(),
                forall|id: u32|
                    kept@.contains_key(id) <==> (ids@.take(i as int).contains(id)
                        && v.bridges[id].timeout + SWEEP_STEP < EXPIRY),
                forall|id: u32|
                    #[trigger] kept@.contains_key(id) ==> kept@[id] == (Bridge {
                        timeout: (v.bridges[id].timeout + SWEEP_STEP) as u8,
                        ..v.bridges[id]
                    }),
            decreases ids@.len() - i,
        {
            let id = ids[i];
            assert(ids@.to_set().contains(id));
            let b = *self.bridges.get(&id).unwrap();
            let t = b.timeout + SWEEP_STEP;
            if t < EXPIRY {
                kept.insert(id, Bridge { timeout: t, ..b });
            }
            assert forall|x: u32| ids@.take(i + 1).contains(x) <==> (ids@.take(i as int).contains(x)
                || x == id) by {
                lemma_take_one_more(ids@, i as int, x);
            }
            i = i + 1;
        }
        assert(ids@.take(i as int) =~= ids@);
        assert(kept@ =~= swept(v).bridges);
        // which clocks advance
        let ks = self.table_keys();
        let mut bumps: HashSet<u64> = HashSet::new();
        let mut i: usize = 0;
        while i < ks.len()
            invariant
                self@ == v,
                ks@.to_set() == v.table.dom(),
                i <= ks@.len(),
                forall|c: u64|
                    bumps@.contains(c) <==> exists|j: int|
                        #![trigger ks@[j]]
                        0 <= j < i && v.table[ks@[j]].clock == c && v.table[ks@[j]].primary,
            decreases ks@.len() - i,
        {
            let k = ks[i];
            assert(ks@.to_set().contains(k));
            let l = *self.table.get(&k).unwrap();
            if l.primary {
                bumps.insert(l.clock);
            }
            i = i + 1;
        }
        proof {
            assert forall|c: u64| bumps@.contains(c) <==> advances(v, c) by {
                if advances(v, c) {
                    let k = choose|k: u64| #![trigger v.table[k]]
                        v.table.contains_key(k) && v.table[k].clock == c && v.table[k].primary;
                    assert(ks@.to_set().contains(k));
                    let j = ks@.index_of(k);
                    assert(ks@[j] == k);
                }
                if bumps@.contains(c) {
                    let j = choose|j: int| #![trigger ks@[j]]
                        0 <= j < i && v.table[ks@[j]].clock == c && v.table[ks@[j]].primary;
                    assert(ks@.to_set().contains(ks@[j]));
                    assert(v.table.contains_key(ks@[j]));
                }
            }
        }
        // the entries and clocks that stay
        let mut table: HashMap<u64, Link> = HashMap::new();
        let mut idle: HashMap<u64, u8> = HashMap::new();
        let mut i: usize = 0;
        while i < ks.len()
            invariant
                self@ == v,
                relay_wf(v),
                ks@.to_set() == v.table.dom(),
                i <= ks@.len(),
                forall|c: u64| bumps@.contains(c) <==> advances(v, c),
                forall|k: u64|
                    table@.contains_key(k) <==> (ks@.take(i as int).contains(k) && advanced(
                        v,
                        v.table[k].clock,
                    ) < EXPIRY),
                forall|k: u64| #[trigger] table@.contains_key(k) ==> table@[k] == v.table[k],
                forall|c: u64|
                    idle@.contains_key(c) <==> (exists|j: int|
                        #![trigger ks@[j]]
                        0 <= j < i && v.table[ks@[j]].clock == c) && advanced(v, c) < EXPIRY,
                forall|c: u64| #[trigger] idle@.contains_key(c) ==> idle@[c] == advanced(v, c),
            decreases ks@.len() - i,
        {
            let k = ks[i];
            assert(ks@.to_set().contains(k));
            let l = *self.table.get(&k).unwrap();
            let cur = *self.idle.get(&l.clock).unwrap();
            let adv = if bumps.contains(&l.clock) {
                cur + SWEEP_STEP
            } else {
                cur
            };
            assert(adv == advanced(v, l.clock));
            if adv < EXPIRY {
                table.insert(k, l);
                idle.insert(l.clock, adv);
            }
            assert forall|x: u64| ks@.take(i + 1).contains(x) <==> (ks@.take(i as int).contains(x)
                || x == k) by {
                lemma_take_one_more(ks@, i as int, x);
            }
            i = i + 1;
        }
        assert(ks@.take(i as int) =~= ks@);
        proof {
            assert forall|c: u64| idle@.contains_key(c) <==> swept(v).idle.contains_key(c) by {
                if idle@.contains_key(c) {
                    let j = choose|j: int| #![trigger ks@[j]] 0 <= j < i && v.table[ks@[j]].clock == c;
                    assert(ks@.to_set().contains(ks@[j]));
                    assert(v.table.contains_key(ks@[j]));
                }
                if swept(v).idle.contains_key(c) {
                    let k = choose|k: u64| #![trigger v.table[k]]
                        v.table.contains_key(k) && v.table[k].clock == c;
                    assert(ks@.to_set().contains(k));
                    let j = ks@.index_of(k);
                    assert(ks@[j] == k);
                }
            }
        }
        assert(table@ =~= swept(v).table);
        assert(idle@ =~= swept(v).idle);
        self.bridges = kept;
        self.table = table;
        self.idle = idle;
    }
}

/// The rendezvous: once the two ends of a fresh bridge have dialled, from
/// the addresses the bridge waits for, the relay has made them a pipe, and
/// payload datagrams from either end are forwarded to the other.
pub proof fn lemma_rendezvous(
    v: RelayView,
    cid: u32,
    x: Endpoint,
    y: Endpoint,
    c1: u64,
    c2: u64,
)
    requires
        v.bridges.contains_key(cid),
        v.bridges[cid] == Bridge::new_spec(x.ip, y.ip),
        !v.table.contains_key(endpoint_key(x)),
        !v.table.contains_key(endpoint_key(y)),
        x != y,
    ensures
        ({
            let (v1, r1) = routed(v, x, CommunicatePacket::CONNECT, 5, cid, c1);
            let (v2, r2) = routed(v1, y, CommunicatePacket::CONNECT, 5, cid, c2);
            &&& r1 == Route::Pending
            &&& r2 == Route::Bridged(x, y)
            &&& !v2.bridges.contains_key(cid)
            &&& routed(v2, x, CommunicatePacket::DATA, 5, cid, c1).1 == Route::Forward(y)
            &&& routed(v2, y, CommunicatePacket::DATA, 5, cid, c1).1 == Route::Forward(x)
            &&& routed(v2, x, CommunicatePacket::CONNECT, 5, cid, c1).1 == Route::Echo
        }),
{
    if endpoint_key(x) == endpoint_key(y) {
        lemma_endpoint_key_injective(x, y);
    }
}

proof fn lemma_sweep_keeps_first_end(v: RelayView, k: u64)
    requires
        relay_wf(v),
        v.table.contains_key(k),
        v.table[k].primary,
    ensures
        relay_wf(swept(v)),
        swept(v).table.contains_key(k) ==> swept(v).table[k] == v.table[k]
            && swept(v).idle[v.table[k].clock] == v.idle[v.table[k].clock] + SWEEP_STEP,
        !swept(v).table.contains_key(k) ==> v.idle[v.table[k].clock] + SWEEP_STEP >= EXPIRY,
{
    let c = v.table[k].clock;
    assert(advances(v, c));
    assert(in_use(v, c));
    let w = swept(v);
    assert forall|k2: u64| w.table.contains_key(k2) implies w.idle.contains_key(
        #[trigger] w.table[k2].clock,
    ) by {
        assert(in_use(v, v.table[k2].clock));
    }
}

/// A pipe on which nothing is received is dropped by the fourth sweep: an
/// entry of a first end is gone from the table after four sweeps in a row.
pub proof fn lemma_idle_pipe_expires(v: RelayView, k: u64)
    requires
        relay_wf(v),
        v.table.contains_key(k),
        v.table[k].primary,
    ensures
        !swept(swept(swept(swept(v)))).table.contains_key(k),
{
    let v1 = swept(v);
    let v2 = swept(v1);
    let v3 = swept(v2);
    lemma_sweep_keeps_first_end(v, k);
    if v1.table.contains_key(k) {
        lemma_sweep_keeps_first_end(v1, k);
        if v2.table.contains_key(k) {
            lemma_sweep_keeps_first_end(v2, k);
            if v3.table.contains_key(k) {
                lemma_sweep_keeps_first_end(v3, k);
            }
        }
    }
}

/// A pipe on which a datagram was just received survives the next three
/// sweeps.
pub proof fn lemma_active_pipe_survives(
    v: RelayView,
    from: Endpoint,
    kind: u8,
    len: nat,
    cid: u32,
    clock: u64,
)
    requires
        relay_wf(v),
        v.table.contains_key(endpoint_key(from)),
        v.table[endpoint_key(from)].primary,
    ensures
        ({
            let w = routed(v, from, kind, len, cid, clock).0;
            &&& relay_wf(w)
            &&& swept(swept(swept(w))).table.contains_key(endpoint_key(from))
        }),
{
    let k = endpoint_key(from);
    let w = routed(v, from, kind, len, cid, clock).0;
    assert(relay_wf(w));
    lemma_sweep_keeps_first_end(w, k);
    let w1 = swept(w);
    lemma_sweep_keeps_first_end(w1, k);
    let w2 = swept(w1);
    lemma_sweep_keeps_first_end(w2, k);
}

/// Every payload datagram from an end of a pipe is forwarded to its peer,
/// whatever its length and whatever it names, and only resets the pipe's idle
/// clock.
pub proof fn lemma_data_forwards(v: RelayView, from: Endpoint, len: nat, cid: u32, clock: u64)
    requires
        v.table.contains_key(endpoint_key(from)),
    ensures
        ({
            let (w, r) = routed(v, from, CommunicatePacket::DATA, len, cid, clock);
            &&& r == Route::Forward(v.table[endpoint_key(from)].peer)
            &&& w.table == v.table
            &&& w.bridges == v.bridges
            &&& w.counter == v.counter
            &&& w.idle == v.idle.insert(v.table[endpoint_key(from)].clock, 0)
        }),
{
}

/// A sweep keeps every bridge that has not waited for the expiry time yet,
/// whatever its ends hold, with its ends unchanged and one step more waited.
pub proof fn lemma_sweep_keeps_young_bridges(v: RelayView, id: u32)
    requires
        v.bridges.contains_key(id),
        v.bridges[id].timeout + SWEEP_STEP < EXPIRY,
    ensures
        swept(v).bridges.contains_key(id),
        swept(v).bridges[id].peer1 == v.bridges[id].peer1,
        swept(v).bridges[id].peer2 == v.bridges[id].peer2,
        swept(v).bridges[id].timeout == v.bridges[id].timeout + SWEEP_STEP,
{
}

/// A bridge on which one end has dialled still completes when the other end
/// dials after a sweep.
pub proof fn lemma_dial_survives_sweep(
    v: RelayView,
    cid: u32,
    x: Endpoint,
    y: Endpoint,
    c1: u64,
    c2: u64,
)
    requires
        v.bridges.contains_key(cid),
        v.bridges[cid] == Bridge::new_spec(x.ip, y.ip),
        !v.table.contains_key(endpoint_key(x)),
        !v.table.contains_key(endpoint_key(y)),
        x != y,
    ensures
        ({
            let (v1, r1) = routed(v, x, CommunicatePacket::CONNECT, 5, cid, c1);
            let v2 = swept(v1);
            let (v3, r3) = routed(v2, y, CommunicatePacket::CONNECT, 5, cid, c2);
            &&& r1 == Route::Pending
            &&& r3 == Route::Bridged(x, y)
            &&& v3.table[endpoint_key(x)].peer == y
            &&& v3.table[endpoint_key(y)].peer == x
        }),
{
    if endpoint_key(x) == endpoint_key(y) {
        lemma_endpoint_key_injective(x, y);
    }
    let v1 = routed(v, x, CommunicatePacket::CONNECT, 5, cid, c1).0;
    lemma_sweep_keeps_young_bridges(v1, cid);
    assert(!swept(v1).table.contains_key(endpoint_key(y)));
}

/// A bridge that is not completed is dropped by the fourth sweep: four
/// sweeps in a row leave no bridge.
pub proof fn lemma_bridges_expire(v: RelayView)
    requires
        relay_wf(v),
    ensures
        swept(swept(swept(swept(v)))).bridges.is_empty(),
{
    let v4 = swept(swept(swept(swept(v))));
    assert(v4.bridges =~= Map::<u32, Bridge>::empty());
}

} // verus!
