//! The authoritative server side: the session table mapping each network
//! peer to its entity, and the per-tick reconciliation step that drains
//! inbound messages, integrates physics, and fans one carrier out per peer.
//!
//! Peer addresses are plain `u64` tokens; the transport layer outside the
//! library translates real socket addresses to and from tokens.

use vstd::prelude::*;
use crate::protocol::{
    Color, Vec2, Spaceship, ClientToServerMessage, ServerToClientMessage, MessageCarrier,
};

verus! {

/// One live association between a peer address and its entity.
#[derive(Clone, Copy, PartialEq, Eq, Structural, Debug)]
pub struct Session {
    pub addr: u64,
    pub id: u16,
    pub ship: Spaceship,
}

/// Index of the first session owned by `addr`, or `s.len()` if none is.
pub open spec fn addr_index(s: Seq<Session>, addr: u64) -> int
    decreases s.len(),
{
    if s.len() == 0 {
        0
    } else if s[0].addr == addr {
        0
    } else {
        1 + addr_index(s.skip(1), addr)
    }
}

/// Whether some session is owned by `addr`.
pub open spec fn has_addr(s: Seq<Session>, addr: u64) -> bool {
    addr_index(s, addr) < s.len()
}

/// The entity owned by `addr`, if any.
pub open spec fn lookup_ship(s: Seq<Session>, addr: u64) -> Option<Spaceship> {
    if has_addr(s, addr) {
        Some(s[addr_index(s, addr)].ship)
    } else {
        None
    }
}

/// `addr_index` is a total first-occurrence search: it stays in bounds, it
/// lands on `addr` exactly when a session with `addr` exists, and everything
/// before it is owned by other addresses.
pub proof fn lemma_addr_index(s: Seq<Session>, addr: u64)
    ensures
        0 <= addr_index(s, addr) <= s.len(),
        has_addr(s, addr) ==> s[addr_index(s, addr)].addr == addr,
        forall|j: int| 0 <= j < addr_index(s, addr) ==> s[j].addr != addr,
        !has_addr(s, addr) ==> forall|j: int| 0 <= j < s.len() ==> s[j].addr != addr,
    decreases s.len(),
{
    if s.len() > 0 && s[0].addr != addr {
        lemma_addr_index(s.skip(1), addr);
        assert forall|j: int| 0 <= j < addr_index(s, addr) implies s[j].addr != addr by {
            if j > 0 {
                assert(s.skip(1)[j - 1] == s[j]);
            }
        }
        if !has_addr(s, addr) {
            assert forall|j: int| 0 <= j < s.len() implies s[j].addr != addr by {
                if j > 0 {
                    assert(s.skip(1)[j - 1] == s[j]);
                }
            }
        }
    }
}

/// The fresh entity a newly registered peer starts with.
pub open spec fn initial_ship(id: u16) -> Spaceship {
    Spaceship {
        id,
        color: Color { r: 255, g: 0, b: 0 },
        position: Vec2 { x: 0, y: 0 },
        velocity: Vec2 { x: 0, y: 0 },
        rotation: 0,
    }
}

/// The authoritative session table: every live peer's session and the
/// monotonically increasing identity counter.
pub struct GameState {
    pub sessions: Vec<Session>,
    pub next_id: u16,
}

/// The session-table invariant: no two sessions share a peer address.
pub open spec fn distinct_addrs(s: Seq<Session>) -> bool {
    forall|i: int, j: int| 0 <= i < j < s.len() ==> s[i].addr != s[j].addr
}

/// Identity hygiene: every assigned identity is positive, at most the
/// counter, and held by exactly one session. This holds from the empty table
/// on, as long as the identity counter has not wrapped around.
pub open spec fn ids_ok(s: Seq<Session>, next_id: u16) -> bool {
    &&& forall|i: int| 0 <= i < s.len() ==> 1 <= #[trigger] s[i].id <= next_id
    &&& forall|i: int, j: int| 0 <= i < j < s.len() ==> s[i].id != s[j].id
}

impl GameState {
    pub open spec fn wf(&self) -> bool {
        distinct_addrs(self.sessions@)
    }

    /// An empty table accepting its first connection.
    pub fn new() -> (r: GameState)
        ensures
            r.sessions@ == Seq::<Session>::empty(),
            r.next_id == 0,
            r.wf(),
            ids_ok(r.sessions@, r.next_id),
    {
        GameState { sessions: Vec::new(), next_id: 0 }
    }

    /// Index of the session owned by `addr`, if one exists.
    fn find_addr(&self, addr: u64) -> (r: Option<usize>)
        ensures
            match r {
                Some(i) => i == addr_index(self.sessions@, addr) && has_addr(self.sessions@, addr),
                None => !has_addr(self.sessions@, addr),
            },
    {
        proof {
            lemma_addr_index(self.sessions@, addr);
        }
        let n = self.sessions.len();
        let mut i: usize = 0;
        while i < n
            invariant
                i <= n,
                n == self.sessions@.len(),
                forall|j: int| 0 <= j < i ==> self.sessions@[j].addr != addr,
                0 <= addr_index(self.sessions@, addr) <= n,
                has_addr(self.sessions@, addr) ==> self.sessions@[addr_index(self.sessions@, addr)].addr == addr,
                forall|j: int| 0 <= j < addr_index(self.sessions@, addr) ==> self.sessions@[j].addr != addr,
                !has_addr(self.sessions@, addr) ==> forall|j: int| 0 <= j < n ==> self.sessions@[j].addr != addr,
            decreases n - i,
        {
            if self.sessions[i].addr == addr {
                return Some(i);
            }
            i += 1;
        }
        None
    }

    /// The entity owned by `addr`, if any: a value copy of the stored state.
    pub fn ship_from_addr(&self, addr: u64) -> (r: Option<Spaceship>)
        ensures
            r == lookup_ship(self.sessions@, addr),
    {
        match self.find_addr(addr) {
            Some(i) => Some(self.sessions[i].ship),
            None => None,
        }
    }

    /// Create a session for `addr`, returning the identity it was assigned.
    ///
    /// Idempotent per address: a peer that already has a session gets no new
    /// identity and `None` back. The counter is incremented before
    /// assignment and never reclaimed; it wraps at the type's width, so
    /// identity freshness (`ids_ok`) is promised only while it has not.
    pub fn register(&mut self, addr: u64) -> (r: Option<u16>)
        requires
            old(self).wf(),
        ensures
            final(self).wf(),
            match r {
                None => has_addr(old(self).sessions@, addr) && *final(self) == *old(self),
                Some(id) => {
                    &&& !has_addr(old(self).sessions@, addr)
                    &&& id == old(self).next_id.wrapping_add(1)
                    &&& final(self).next_id == id
                    &&& final(self).sessions@ == old(self).sessions@.push(
                        Session { addr, id, ship: initial_ship(id) },
                    )
                },
            },
            ids_ok(old(self).sessions@, old(self).next_id) && old(self).next_id < u16::MAX
                ==> ids_ok(final(self).sessions@, final(self).next_id),
    {
        proof {
            lemma_addr_index(self.sessions@, addr);
        }
        match self.find_addr(addr) {
            Some(_) => None,
            None => {
                let id = self.next_id.wrapping_add(1);
                self.next_id = id;
                self.sessions.push(Session { addr, id, ship: initial_ship_exec(id) });
                Some(id)
            }
        }
    }

    /// Remove `addr`'s session, returning the identity it held. The whole
    /// row leaves at once; an unknown address is a no-op.
    pub fn unregister(&mut self, addr: u64) -> (r: Option<u16>)
        requires
            old(self).wf(),
        ensures
            final(self).wf(),
            final(self).next_id == old(self).next_id,
            match r {
                Some(id) => {
                    &&& has_addr(old(self).sessions@, addr)
                    &&& id == old(self).sessions@[addr_index(old(self).sessions@, addr)].id
                    &&& final(self).sessions@ == old(self).sessions@.remove(
                        addr_index(old(self).sessions@, addr),
                    )
                },
                None => !has_addr(old(self).sessions@, addr) && *final(self) == *old(self),
            },
            ids_ok(old(self).sessions@, old(self).next_id)
                ==> ids_ok(final(self).sessions@, final(self).next_id),
    {
        match self.find_addr(addr) {
            Some(i) => {
                let id = self.sessions[i].id;
                self.sessions.remove(i);
                Some(id)
            }
            None => None,
        }
    }

    /// Replace the whole entity stored for the session owned by `addr`.
    ///
    /// The session is resolved by network origin, never by the identity
    /// field inside the message; a message from an address with no session
    /// is silently dropped. Returns whether an entity was replaced.
    pub fn apply_update(&mut self, addr: u64, ship: Spaceship) -> (applied: bool)
        requires
            old(self).wf(),
        ensures
            final(self).wf(),
            final(self).next_id == old(self).next_id,
            applied == has_addr(old(self).sessions@, addr),
            applied ==> final(self).sessions@ == old(self).sessions@.update(
                addr_index(old(self).sessions@, addr),
                Session {
                    addr,
                    id: old(self).sessions@[addr_index(old(self).sessions@, addr)].id,
                    ship,
                },
            ),
            !applied ==> *final(self) == *old(self),
            ids_ok(old(self).sessions@, old(self).next_id)
                ==> ids_ok(final(self).sessions@, final(self).next_id),
    {
        proof {
            lemma_addr_index(self.sessions@, addr);
        }
        match self.find_addr(addr) {
            Some(i) => {
                let id = self.sessions[i].id;
                self.sessions.set(i, Session { addr, id, ship });
                true
            }
            None => false,
        }
    }
}

/// Index of the first per-destination batch addressed to `addr`, or
/// `b.len()` if none is.
pub open spec fn batch_index(b: Seq<(u64, Seq<ServerToClientMessage>)>, addr: u64) -> int
    decreases b.len(),
{
    if b.len() == 0 {
        0
    } else if b[0].0 == addr {
        0
    } else {
        1 + batch_index(b.skip(1), addr)
    }
}

pub open spec fn batch_has(b: Seq<(u64, Seq<ServerToClientMessage>)>, addr: u64) -> bool {
    batch_index(b, addr) < b.len()
}

/// The batch accumulated for destination `addr`, if any.
pub open spec fn batch_get(b: Seq<(u64, Seq<ServerToClientMessage>)>, addr: u64) -> Option<
    Seq<ServerToClientMessage>,
> {
    if batch_has(b, addr) {
        Some(b[batch_index(b, addr)].1)
    } else {
        None
    }
}

/// Append `m` to the batch for `addr`, creating the batch if none exists.
pub open spec fn batch_upsert(
    b: Seq<(u64, Seq<ServerToClientMessage>)>,
    addr: u64,
    m: ServerToClientMessage,
) -> Seq<(u64, Seq<ServerToClientMessage>)> {
    if batch_has(b, addr) {
        b.update(batch_index(b, addr), (addr, b[batch_index(b, addr)].1.push(m)))
    } else {
        b.push((addr, seq![m]))
    }
}

/// `batch_index` is a total first-occurrence search, like `addr_index`.
pub proof fn lemma_batch_index(b: Seq<(u64, Seq<ServerToClientMessage>)>, addr: u64)
    ensures
        0 <= batch_index(b, addr) <= b.len(),
        batch_has(b, addr) ==> b[batch_index(b, addr)].0 == addr,
        forall|j: int| 0 <= j < batch_index(b, addr) ==> b[j].0 != addr,
        !batch_has(b, addr) ==> forall|j: int| 0 <= j < b.len() ==> b[j].0 != addr,
    decreases b.len(),
{
    if b.len() > 0 && b[0].0 != addr {
        lemma_batch_index(b.skip(1), addr);
        assert forall|j: int| 0 <= j < batch_index(b, addr) implies b[j].0 != addr by {
            if j > 0 {
                assert(b.skip(1)[j - 1] == b[j]);
            }
        }
        if !batch_has(b, addr) {
            assert forall|j: int| 0 <= j < b.len() implies b[j].0 != addr by {
                if j > 0 {
                    assert(b.skip(1)[j - 1] == b[j]);
                }
            }
        }
    }
}

/// A position holding `addr` with no earlier one is the one `batch_index`
/// finds.
pub proof fn lemma_first_occurrence_batch(
    b: Seq<(u64, Seq<ServerToClientMessage>)>,
    addr: u64,
    i: int,
)
    requires
        0 <= i < b.len(),
        b[i].0 == addr,
        forall|j: int| 0 <= j < i ==> b[j].0 != addr,
    ensures
        batch_has(b, addr),
        batch_index(b, addr) == i,
{
    lemma_batch_index(b, addr);
    let bi = batch_index(b, addr);
    if !batch_has(b, addr) {
        assert(b[i].0 != addr);
    }
    if bi < i {
        assert(b[bi].0 == addr);
    }
    if bi > i {
        assert(b[i].0 != addr);
    }
}

/// The state the drain step folds over: the session table together with the
/// shared broadcast batch and the per-destination batches of this tick.
pub ghost struct DrainState {
    pub sessions: Seq<Session>,
    pub next_id: u16,
    pub general: Seq<ServerToClientMessage>,
    pub specific: Seq<(u64, Seq<ServerToClientMessage>)>,
}

/// A tick's drain state before any inbound message is consumed.
pub open spec fn drain_init(sessions: Seq<Session>, next_id: u16) -> DrainState {
    DrainState {
        sessions,
        next_id,
        general: Seq::empty(),
        specific: Seq::empty(),
    }
}

/// Effect of one inbound message on the drain state.
///
/// `Hello` from an unseen address creates a session and queues the
/// assignment in that peer's own batch; a duplicate `Hello` changes
/// nothing. `Goodbye` removes the whole session and queues the removal in
/// the shared batch. `UpdateSpaceship` replaces the sender's stored entity
/// and queues the echo in the shared batch; from an unknown address it is
/// dropped.
pub open spec fn drain_one(st: DrainState, from: u64, m: ClientToServerMessage) -> DrainState {
    match m {
        ClientToServerMessage::Hello => {
            if has_addr(st.sessions, from) {
                st
            } else {
                let id = st.next_id.wrapping_add(1);
                DrainState {
                    sessions: st.sessions.push(Session { addr: from, id, ship: initial_ship(id) }),
                    next_id: id,
                    general: st.general,
                    specific: batch_upsert(
                        st.specific,
                        from,
                        ServerToClientMessage::AssignSpaceship(id),
                    ),
                }
            }
        },
        ClientToServerMessage::Goodbye => {
            if has_addr(st.sessions, from) {
                let i = addr_index(st.sessions, from);
                DrainState {
                    sessions: st.sessions.remove(i),
                    next_id: st.next_id,
                    general: st.general.push(
                        ServerToClientMessage::RemoveSpaceship(st.sessions[i].id),
                    ),
                    specific: st.specific,
                }
            } else {
                st
            }
        },
        ClientToServerMessage::UpdateSpaceship(ship) => {
            if has_addr(st.sessions, from) {
                let i = addr_index(st.sessions, from);
                DrainState {
                    sessions: st.sessions.update(
                        i,
                        Session { addr: from, id: st.sessions[i].id, ship },
                    ),
                    next_id: st.next_id,
                    general: st.general.push(ServerToClientMessage::UpdateSpaceship(ship)),
                    specific: st.specific,
                }
            } else {
                st
            }
        },
    }
}

/// Fold of `drain_one` over a whole inbound queue, oldest message first.
pub open spec fn drain_all(st: DrainState, inbound: Seq<(u64, ClientToServerMessage)>) -> DrainState
    decreases inbound.len(),
{
    if inbound.len() == 0 {
        st
    } else {
        drain_all(drain_one(st, inbound[0].0, inbound[0].1), inbound.skip(1))
    }
}

pub proof fn lemma_drain_all_push(
    st: DrainState,
    inbound: Seq<(u64, ClientToServerMessage)>,
    from: u64,
    m: ClientToServerMessage,
)
    ensures
        drain_all(st, inbound.push((from, m))) == drain_one(drain_all(st, inbound), from, m),
    decreases inbound.len(),
{
    reveal_with_fuel(drain_all, 2);
    if inbound.len() == 0 {
        assert(inbound.push((from, m))[0] == (from, m));
        assert(inbound.push((from, m)).skip(1) =~= inbound);
    } else {
        let st2 = drain_one(st, inbound[0].0, inbound[0].1);
        assert(inbound.push((from, m))[0] == inbound[0]);
        assert(inbound.push((from, m)).skip(1) =~= inbound.skip(1).push((from, m)));
        lemma_drain_all_push(st2, inbound.skip(1), from, m);
        assert(drain_all(st, inbound.push((from, m))) == drain_all(
            st2,
            inbound.skip(1).push((from, m)),
        ));
    }
}

/// One fixed integration step: the position advances by the velocity scaled
/// by `dt`, in wrapping arithmetic; identity, color, velocity and rotation
/// are untouched.
pub open spec fn integrate_ship(s: Spaceship, dt: i32) -> Spaceship {
    Spaceship {
        position: Vec2 {
            x: s.position.x.wrapping_add(s.velocity.x.wrapping_mul(dt)),
            y: s.position.y.wrapping_add(s.velocity.y.wrapping_mul(dt)),
        },
        ..s
    }
}

/// `integrate_ship` lifted to a session: address and identity stay.
pub open spec fn integrate_session(s: Session, dt: i32) -> Session {
    Session { ship: integrate_ship(s.ship, dt), ..s }
}

/// The broadcast echoes of an integration pass: one `UpdateSpaceship` per
/// live session, in table order, carrying the post-integration state.
pub open spec fn update_msgs(s: Seq<Session>, dt: i32) -> Seq<ServerToClientMessage> {
    s.map_values(|sess: Session| ServerToClientMessage::UpdateSpaceship(integrate_ship(sess.ship, dt)))
}

/// The mathematical value of the per-destination batch table.
pub open spec fn bview(v: Seq<(u64, Vec<ServerToClientMessage>)>) -> Seq<
    (u64, Seq<ServerToClientMessage>),
> {
    v.map_values(|p: (u64, Vec<ServerToClientMessage>)| (p.0, p.1@))
}

/// Exec twin of `batch_upsert` on the batch table.
fn batch_push(
    batches: &mut Vec<(u64, Vec<ServerToClientMessage>)>,
    addr: u64,
    m: ServerToClientMessage,
)
    ensures
        bview(final(batches)@) == batch_upsert(bview(old(batches)@), addr, m),
{
    let ghost bv = bview(batches@);
    proof {
        lemma_batch_index(bv, addr);
    }
    let n = batches.len();
    let mut i: usize = 0;
    while i < n
        invariant
            i <= n,
            n == batches@.len(),
            batches@ == old(batches)@,
            bv == bview(batches@),
            forall|j: int| 0 <= j < i ==> bv[j].0 != addr,
        decreases n - i,
    {
        assert(bv[i as int].0 == batches@[i as int].0);
        if batches[i].0 == addr {
            proof {
                lemma_first_occurrence_batch(bv, addr, i as int);
            }
            let mut entry = batches.remove(i);
            entry.1.push(m);
            let ghost entry_v = entry;
            batches.insert(i, entry);
            proof {
                broadcast use vstd::seq_lib::lemma_update_is_remove_insert;

                assert(batches@ =~= old(batches)@.update(i as int, entry_v));
                assert(bview(batches@) =~= batch_upsert(bv, addr, m));
            }
            return ;
        }
        i += 1;
    }
    assert(!batch_has(bv, addr));
    let mut msgs: Vec<ServerToClientMessage> = Vec::new();
    msgs.push(m);
    assert(msgs@ =~= seq![m]);
    batches.push((addr, msgs));
    assert(bview(batches@) =~= batch_upsert(bv, addr, m));
}

/// A value copy of a message batch.
fn copy_msgs(v: &Vec<ServerToClientMessage>) -> (r: Vec<ServerToClientMessage>)
    ensures
        r@ == v@,
{
    let mut r: Vec<ServerToClientMessage> = Vec::new();
    let mut i: usize = 0;
    while i < v.len()
        invariant
            i <= v@.len(),
            r@ == v@.take(i as int),
        decreases v@.len() - i,
    {
        r.push(v[i]);
        assert(r@ =~= v@.take(i + 1));
        i += 1;
    }
    assert(v@.take(v@.len() as int) =~= v@);
    r
}

/// Exec twin of `batch_get`: a value copy of the batch for `addr`, if any.
fn batch_take(batches: &Vec<(u64, Vec<ServerToClientMessage>)>, addr: u64) -> (r: Option<
    Vec<ServerToClientMessage>,
>)
    ensures
        match r {
            Some(v) => batch_get(bview(batches@), addr) == Some(v@),
            None => batch_get(bview(batches@), addr) is None,
        },
{
    let ghost bv = bview(batches@);
    proof {
        lemma_batch_index(bv, addr);
    }
    let n = batches.len();
    let mut i: usize = 0;
    while i < n
        invariant
            i <= n,
            n == batches@.len(),
            bv == bview(batches@),
            forall|j: int| 0 <= j < i ==> bv[j].0 != addr,
        decreases n - i,
    {
        assert(bv[i as int].0 == batches@[i as int].0);
        if batches[i].0 == addr {
            proof {
                lemma_first_occurrence_batch(bv, addr, i as int);
            }
            assert(bv[i as int].1 == batches@[i as int].1@);
            return Some(copy_msgs(&batches[i].1));
        }
        i += 1;
    }
    None
}

impl GameState {
    /// Advance every live entity one integration step: the position moves
    /// by the velocity scaled by `dt`. Always succeeds; identities,
    /// addresses and the counter are untouched.
    pub fn integrate_all(&mut self, dt: i32)
        requires
            old(self).wf(),
        ensures
            final(self).wf(),
            final(self).next_id == old(self).next_id,
            final(self).sessions@.len() == old(self).sessions@.len(),
            forall|i: int|
                0 <= i < old(self).sessions@.len() ==> final(self).sessions@[i]
                    == integrate_session(old(self).sessions@[i], dt),
    {
        let m = self.sessions.len();
        let mut j: usize = 0;
        while j < m
            invariant
                j <= m,
                m == self.sessions@.len(),
                m == old(self).sessions@.len(),
                self.next_id == old(self).next_id,
                forall|k: int|
                    0 <= k < j ==> self.sessions@[k] == integrate_session(
                        old(self).sessions@[k],
                        dt,
                    ),
                forall|k: int| j <= k < m ==> self.sessions@[k] == old(self).sessions@[k],
            decreases m - j,
        {
            let s = self.sessions[j];
            let ns = Session { addr: s.addr, id: s.id, ship: integrate_ship_exec(s.ship, dt) };
            self.sessions.set(j, ns);
            j += 1;
        }
        proof {
            assert forall|a: int, b: int| 0 <= a < b < m implies self.sessions@[a].addr
                != self.sessions@[b].addr by {
                assert(self.sessions@[a].addr == old(self).sessions@[a].addr);
                assert(self.sessions@[b].addr == old(self).sessions@[b].addr);
            }
        }
    }

    /// One server tick over an already-drained inbound queue.
    ///
    /// Applies every inbound message in arrival order (`drain_all`),
    /// advances every surviving entity one integration step and appends its
    /// echo to the shared batch, then builds one carrier per live peer, in
    /// table order: the same shared batch for everyone, plus the peer's own
    /// batch if the drain produced one. Pacing and transmission belong to
    /// the caller.
    pub fn tick(&mut self, inbound: &Vec<(u64, ClientToServerMessage)>, dt: i32) -> (out: Vec<
        (u64, MessageCarrier),
    >)
        requires
            old(self).wf(),
        ensures
            final(self).wf(),
            ({
                let d = drain_all(
                    drain_init(old(self).sessions@, old(self).next_id),
                    inbound@,
                );
                let gen = d.general + update_msgs(d.sessions, dt);
                &&& final(self).next_id == d.next_id
                &&& final(self).sessions@.len() == d.sessions.len()
                &&& forall|i: int|
                    0 <= i < d.sessions.len() ==> final(self).sessions@[i] == integrate_session(
                        d.sessions[i],
                        dt,
                    )
                &&& out@.len() == d.sessions.len()
                &&& forall|i: int|
                    0 <= i < d.sessions.len() ==> {
                        &&& out@[i].0 == d.sessions[i].addr
                        &&& out@[i].1@.general == gen
                        &&& out@[i].1@.specific == batch_get(d.specific, d.sessions[i].addr)
                    }
            }),
    {
        let ghost init = drain_init(self.sessions@, self.next_id);
        let mut general: Vec<ServerToClientMessage> = Vec::new();
        let mut specific: Vec<(u64, Vec<ServerToClientMessage>)> = Vec::new();

        let n = inbound.len();
        let mut i: usize = 0;
        while i < n
            invariant
                i <= n,
                n == inbound@.len(),
                self.wf(),
                ({
                    let d = drain_all(init, inbound@.take(i as int));
                    &&& d.sessions == self.sessions@
                    &&& d.next_id == self.next_id
                    &&& d.general == general@
                    &&& d.specific == bview(specific@)
                }),
            decreases n - i,
        {
            let ghost d_prev = drain_all(init, inbound@.take(i as int));
            let (from, msg) = inbound[i];
            match msg {
                ClientToServerMessage::Hello => {
                    match self.register(from) {
                        Some(id) => {
                            batch_push(&mut specific, from, ServerToClientMessage::AssignSpaceship(id));
                        },
                        None => {},
                    }
                },
                ClientToServerMessage::Goodbye => {
                    match self.unregister(from) {
                        Some(id) => {
                            general.push(ServerToClientMessage::RemoveSpaceship(id));
                        },
                        None => {},
                    }
                },
                ClientToServerMessage::UpdateSpaceship(ship) => {
                    if self.apply_update(from, ship) {
                        general.push(ServerToClientMessage::UpdateSpaceship(ship));
                    }
                },
            }
            proof {
                lemma_drain_all_push(init, inbound@.take(i as int), from, msg);
                assert(inbound@.take(i + 1) =~= inbound@.take(i as int).push((from, msg)));
                let d_next = drain_one(d_prev, from, msg);
                assert(drain_all(init, inbound@.take(i + 1)) == d_next);
            }
            i += 1;
        }
        proof {
            assert(inbound@.take(n as int) =~= inbound@);
        }
        let ghost d = drain_all(init, inbound@);

        self.integrate_all(dt);

        let m = self.sessions.len();
        let mut j: usize = 0;
        while j < m
            invariant
                j <= m,
                m == self.sessions@.len(),
                m == d.sessions.len(),
                forall|k: int|
                    0 <= k < m ==> self.sessions@[k] == integrate_session(d.sessions[k], dt),
                general@ == d.general + update_msgs(d.sessions, dt).take(j as int),
            decreases m - j,
        {
            let s = self.sessions[j];
            general.push(ServerToClientMessage::UpdateSpaceship(s.ship));
            proof {
                assert(update_msgs(d.sessions, dt)[j as int] == ServerToClientMessage::UpdateSpaceship(
                    integrate_ship(d.sessions[j as int].ship, dt),
                ));
                assert(update_msgs(d.sessions, dt).take(j + 1) =~= update_msgs(d.sessions, dt).take(
                    j as int,
                ).push(update_msgs(d.sessions, dt)[j as int]));
                assert(general@ =~= d.general + update_msgs(d.sessions, dt).take(j + 1));
            }
            j += 1;
        }
        proof {
            assert(update_msgs(d.sessions, dt).take(m as int) =~= update_msgs(d.sessions, dt));
        }
        let ghost gen = d.general + update_msgs(d.sessions, dt);

        let mut out: Vec<(u64, MessageCarrier)> = Vec::new();
        let mut k: usize = 0;
        while k < m
            invariant
                k <= m,
                m == self.sessions@.len(),
                m == d.sessions.len(),
                general@ == gen,
                bview(specific@) == d.specific,
                forall|i2: int|
                    0 <= i2 < m ==> self.sessions@[i2] == integrate_session(d.sessions[i2], dt),
                out@.len() == k,
                forall|i2: int|
                    0 <= i2 < k ==> {
                        &&& out@[i2].0 == d.sessions[i2].addr
                        &&& out@[i2].1@.general == gen
                        &&& out@[i2].1@.specific == batch_get(d.specific, d.sessions[i2].addr)
                    },
            decreases m - k,
        {
            let addr = self.sessions[k].addr;
            let sp = batch_take(&specific, addr);
            let gen_copy = copy_msgs(&general);
            out.push((addr, MessageCarrier { general: gen_copy, specific: sp }));
            k += 1;
        }
        out
    }
}

/// A `Hello` from an unseen peer assigns an identity no live session
/// holds, and queues exactly one assignment, in that peer's own batch;
/// identity hygiene survives. Freshness is promised as long as the
/// identity counter has not wrapped.
pub proof fn lemma_hello_fresh(st: DrainState, from: u64)
    requires
        !has_addr(st.sessions, from),
        ids_ok(st.sessions, st.next_id),
        st.next_id < u16::MAX,
    ensures
        ({
            let id = (st.next_id + 1) as u16;
            let st2 = drain_one(st, from, ClientToServerMessage::Hello);
            &&& st2.sessions == st.sessions.push(
                Session { addr: from, id, ship: initial_ship(id) },
            )
            &&& st2.next_id == id
            &&& forall|i: int| 0 <= i < st.sessions.len() ==> #[trigger] st.sessions[i].id != id
            &&& ids_ok(st2.sessions, st2.next_id)
            &&& st2.general == st.general
            &&& st2.specific == batch_upsert(
                st.specific,
                from,
                ServerToClientMessage::AssignSpaceship(id),
            )
        }),
{
    let id = (st.next_id + 1) as u16;
    let st2 = drain_one(st, from, ClientToServerMessage::Hello);
    assert(st.next_id.wrapping_add(1) == id);
    assert forall|i: int| 0 <= i < st2.sessions.len() implies 1 <= #[trigger] st2.sessions[i].id
        <= st2.next_id by {
        if i < st.sessions.len() {
            assert(st2.sessions[i] == st.sessions[i]);
        }
    }
}

/// A duplicate `Hello` is a complete no-op: no new identity, no queued
/// assignment, nothing touched.
pub proof fn lemma_hello_duplicate(st: DrainState, from: u64)
    requires
        has_addr(st.sessions, from),
    ensures
        drain_one(st, from, ClientToServerMessage::Hello) == st,
{
}

/// One inbound message keeps identity hygiene, while the counter cannot
/// wrap.
pub proof fn lemma_drain_one_preserves_ids(st: DrainState, from: u64, m: ClientToServerMessage)
    requires
        ids_ok(st.sessions, st.next_id),
        st.next_id < u16::MAX,
    ensures
        ({
            let st2 = drain_one(st, from, m);
            &&& ids_ok(st2.sessions, st2.next_id)
            &&& st.next_id <= st2.next_id <= st.next_id + 1
        }),
{
    let st2 = drain_one(st, from, m);
    match m {
        ClientToServerMessage::Hello => {
            if !has_addr(st.sessions, from) {
                lemma_hello_fresh(st, from);
            }
        },
        ClientToServerMessage::Goodbye => {
            if has_addr(st.sessions, from) {
                lemma_addr_index(st.sessions, from);
            }
        },
        ClientToServerMessage::UpdateSpaceship(_) => {
            if has_addr(st.sessions, from) {
                lemma_addr_index(st.sessions, from);
            }
        },
    }
}

/// A whole drain pass keeps identity hygiene, while the counter cannot
/// wrap within it; every `Hello` of the pass therefore receives a
/// strictly distinct, previously unused identity.
pub proof fn lemma_drain_preserves_ids(
    st: DrainState,
    inbound: Seq<(u64, ClientToServerMessage)>,
)
    requires
        ids_ok(st.sessions, st.next_id),
        st.next_id + inbound.len() <= u16::MAX,
    ensures
        ({
            let d = drain_all(st, inbound);
            &&& ids_ok(d.sessions, d.next_id)
            &&& st.next_id <= d.next_id <= st.next_id + inbound.len()
        }),
    decreases inbound.len(),
{
    if inbound.len() > 0 {
        lemma_drain_one_preserves_ids(st, inbound[0].0, inbound[0].1);
        lemma_drain_preserves_ids(drain_one(st, inbound[0].0, inbound[0].1), inbound.skip(1));
    }
}

/// Once a peer has said `Goodbye`, a following update from that address
/// falls on no session and changes nothing: no entity is resurrected.
pub proof fn lemma_goodbye_then_update(st: DrainState, from: u64, e: Spaceship)
    requires
        distinct_addrs(st.sessions),
    ensures
        ({
            let st1 = drain_one(st, from, ClientToServerMessage::Goodbye);
            drain_one(st1, from, ClientToServerMessage::UpdateSpaceship(e)) == st1
        }),
{
    if has_addr(st.sessions, from) {
        lemma_addr_index(st.sessions, from);
        let s = st.sessions;
        let i = addr_index(s, from);
        let s2 = s.remove(i);
        assert forall|j: int| 0 <= j < s2.len() implies s2[j].addr != from by {
            if j < i {
                assert(s2[j] == s[j]);
            } else {
                assert(s2[j] == s[j + 1]);
            }
        }
        lemma_addr_index(s2, from);
        if has_addr(s2, from) {
            assert(s2[addr_index(s2, from)].addr == from);
        }
    }
}

/// Exec twin of `initial_ship`.
fn initial_ship_exec(id: u16) -> (r: Spaceship)
    ensures
        r == initial_ship(id),
{
    Spaceship {
        id,
        color: Color { r: 255, g: 0, b: 0 },
        position: Vec2 { x: 0, y: 0 },
        velocity: Vec2 { x: 0, y: 0 },
        rotation: 0,
    }
}

/// Exec twin of `integrate_ship`.
fn integrate_ship_exec(s: Spaceship, dt: i32) -> (r: Spaceship)
    ensures
        r == integrate_ship(s, dt),
{
    Spaceship {
        position: Vec2 {
            x: s.position.x.wrapping_add(s.velocity.x.wrapping_mul(dt)),
            y: s.position.y.wrapping_add(s.velocity.y.wrapping_mul(dt)),
        },
        ..s
    }
}

} // verus!
