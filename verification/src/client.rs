//! The client side: a local mirror of the server's world, reconciled
//! against inbound carriers, with a one-entity "self-authoritative"
//! exception for the client's own ship.

use vstd::prelude::*;
use crate::protocol::{Spaceship, ServerToClientMessage, MessageCarrier};

verus! {

/// Index of the first mirrored ship with identity `id`, or `s.len()`.
pub open spec fn id_index(s: Seq<Spaceship>, id: u16) -> int
    decreases s.len(),
{
    if s.len() == 0 {
        0
    } else if s[0].id == id {
        0
    } else {
        1 + id_index(s.skip(1), id)
    }
}

pub open spec fn has_id(s: Seq<Spaceship>, id: u16) -> bool {
    id_index(s, id) < s.len()
}

/// `id_index` is a total first-occurrence search.
pub proof fn lemma_id_index(s: Seq<Spaceship>, id: u16)
    ensures
        0 <= id_index(s, id) <= s.len(),
        has_id(s, id) ==> s[id_index(s, id)].id == id,
        forall|j: int| 0 <= j < id_index(s, id) ==> s[j].id != id,
        !has_id(s, id) ==> forall|j: int| 0 <= j < s.len() ==> s[j].id != id,
    decreases s.len(),
{
    if s.len() > 0 && s[0].id != id {
        lemma_id_index(s.skip(1), id);
        assert forall|j: int| 0 <= j < id_index(s, id) implies s[j].id != id by {
            if j > 0 {
                assert(s.skip(1)[j - 1] == s[j]);
            }
        }
        if !has_id(s, id) {
            assert forall|j: int| 0 <= j < s.len() implies s[j].id != id by {
                if j > 0 {
                    assert(s.skip(1)[j - 1] == s[j]);
                }
            }
        }
    }
}

/// A position holding `id` with no earlier one is the one `id_index` finds.
pub proof fn lemma_first_occurrence_id(s: Seq<Spaceship>, id: u16, i: int)
    requires
        0 <= i < s.len(),
        s[i].id == id,
        forall|j: int| 0 <= j < i ==> s[j].id != id,
    ensures
        has_id(s, id),
        id_index(s, id) == i,
{
    lemma_id_index(s, id);
    let si = id_index(s, id);
    if !has_id(s, id) {
        assert(s[i].id != id);
    }
    if si < i {
        assert(s[si].id == id);
    }
    if si > i {
        assert(s[i].id != id);
    }
}

/// Insert `e` into the mirror under its own identity, replacing any ship
/// already stored under it.
pub open spec fn mirror_upsert(s: Seq<Spaceship>, e: Spaceship) -> Seq<Spaceship> {
    if has_id(s, e.id) {
        s.update(id_index(s, e.id), e)
    } else {
        s.push(e)
    }
}

/// Remove the ship stored under `id`, if any.
pub open spec fn mirror_remove(s: Seq<Spaceship>, id: u16) -> Seq<Spaceship> {
    if has_id(s, id) {
        s.remove(id_index(s, id))
    } else {
        s
    }
}

/// The mathematical value of the client state: the mirrored ships in
/// insertion order, and the identity the server assigned to this client.
pub ghost struct MirrorState {
    pub ships: Seq<Spaceship>,
    pub mine: Option<u16>,
}

/// Effect of one server message on the client state.
///
/// An assignment only records "my entity id". An update for the client's
/// own entity is dropped — the client stays authoritative over its own
/// ship — and any other update or add replaces the mirror entry wholesale.
/// A removal is unconditional. `Goodbye` has no client-side effect.
pub open spec fn apply_s2c(st: MirrorState, m: ServerToClientMessage) -> MirrorState {
    match m {
        ServerToClientMessage::AssignSpaceship(id) => MirrorState { ships: st.ships, mine: Some(id) },
        ServerToClientMessage::UpdateSpaceship(e) => {
            if st.mine == Some(e.id) {
                st
            } else {
                MirrorState { ships: mirror_upsert(st.ships, e), mine: st.mine }
            }
        },
        ServerToClientMessage::AddSpaceship(e) => MirrorState {
            ships: mirror_upsert(st.ships, e),
            mine: st.mine,
        },
        ServerToClientMessage::RemoveSpaceship(id) => MirrorState {
            ships: mirror_remove(st.ships, id),
            mine: st.mine,
        },
        ServerToClientMessage::Goodbye => st,
    }
}

/// Fold of `apply_s2c` over a batch, first message first.
pub open spec fn apply_msgs(st: MirrorState, ms: Seq<ServerToClientMessage>) -> MirrorState
    decreases ms.len(),
{
    if ms.len() == 0 {
        st
    } else {
        apply_msgs(apply_s2c(st, ms[0]), ms.skip(1))
    }
}

pub proof fn lemma_apply_msgs_push(st: MirrorState, ms: Seq<ServerToClientMessage>, m: ServerToClientMessage)
    ensures
        apply_msgs(st, ms.push(m)) == apply_s2c(apply_msgs(st, ms), m),
    decreases ms.len(),
{
    reveal_with_fuel(apply_msgs, 2);
    if ms.len() == 0 {
        assert(ms.push(m)[0] == m);
        assert(ms.push(m).skip(1) =~= ms);
    } else {
        let st2 = apply_s2c(st, ms[0]);
        assert(ms.push(m)[0] == ms[0]);
        assert(ms.push(m).skip(1) =~= ms.skip(1).push(m));
        lemma_apply_msgs_push(st2, ms.skip(1), m);
        assert(apply_msgs(st, ms.push(m)) == apply_msgs(st2, ms.skip(1).push(m)));
    }
}

/// The whole effect of one carrier: the shared batch first, then the
/// destination's own batch. The ordering matters: an assignment in the
/// specific batch must not be overwritten by a stale broadcast arriving in
/// the same carrier.
pub open spec fn apply_carrier(st: MirrorState, c: crate::protocol::CarrierView) -> MirrorState {
    apply_msgs(
        apply_msgs(st, c.general),
        match c.specific {
            Some(s) => s,
            None => Seq::empty(),
        },
    )
}

/// The mirror invariant: no identity is mirrored twice.
pub open spec fn distinct_ids(s: Seq<Spaceship>) -> bool {
    forall|i: int, j: int| 0 <= i < j < s.len() ==> s[i].id != s[j].id
}

/// `mirror_upsert` keeps identities distinct.
pub proof fn lemma_upsert_distinct(s: Seq<Spaceship>, e: Spaceship)
    requires
        distinct_ids(s),
    ensures
        distinct_ids(mirror_upsert(s, e)),
{
    lemma_id_index(s, e.id);
}

/// `mirror_remove` keeps identities distinct.
pub proof fn lemma_remove_distinct(s: Seq<Spaceship>, id: u16)
    requires
        distinct_ids(s),
    ensures
        distinct_ids(mirror_remove(s, id)),
{
    lemma_id_index(s, id);
}

/// Applying the same update for an entity the client does not own twice
/// leaves the mirror exactly as applying it once does.
pub proof fn lemma_update_idempotent(st: MirrorState, e: Spaceship)
    requires
        distinct_ids(st.ships),
        st.mine != Some(e.id),
    ensures
        ({
            let once = apply_s2c(st, ServerToClientMessage::UpdateSpaceship(e));
            apply_s2c(once, ServerToClientMessage::UpdateSpaceship(e)) == once
        }),
{
    lemma_id_index(st.ships, e.id);
    let s = st.ships;
    if has_id(s, e.id) {
        let i = id_index(s, e.id);
        let s1 = s.update(i, e);
        assert forall|j: int| 0 <= j < i implies s1[j].id != e.id by {
            assert(s1[j] == s[j]);
        }
        lemma_first_occurrence_id(s1, e.id, i);
        assert(s1.update(i, e) =~= s1);
    } else {
        let s1 = s.push(e);
        let n = s.len() as int;
        assert forall|j: int| 0 <= j < n implies s1[j].id != e.id by {
            assert(s1[j] == s[j]);
        }
        assert(s1[n] == e);
        lemma_first_occurrence_id(s1, e.id, n);
        assert(s1.update(n, e) =~= s1);
    }
}

/// An update for the entity the client owns is ignored outright.
pub proof fn lemma_self_update_ignored(st: MirrorState, e: Spaceship)
    requires
        st.mine == Some(e.id),
    ensures
        apply_s2c(st, ServerToClientMessage::UpdateSpaceship(e)) == st,
{
}

/// However many updates for the owned entity arrive, and whatever state
/// they carry, the client state never moves.
pub proof fn lemma_self_update_ignored_many(
    st: MirrorState,
    ms: Seq<ServerToClientMessage>,
    k: u16,
)
    requires
        st.mine == Some(k),
        forall|i: int|
            0 <= i < ms.len() ==> (#[trigger] ms[i] matches
            ServerToClientMessage::UpdateSpaceship(e) && e.id == k),
    ensures
        apply_msgs(st, ms) == st,
    decreases ms.len(),
{
    if ms.len() > 0 {
        assert(ms[0] matches ServerToClientMessage::UpdateSpaceship(e) && e.id == k);
        match ms[0] {
            ServerToClientMessage::UpdateSpaceship(e) => {
                lemma_self_update_ignored(st, e);
            },
            _ => {
                assert(false);
            },
        }
        assert forall|i: int|
            0 <= i < ms.skip(1).len() implies (#[trigger] ms.skip(1)[i] matches
            ServerToClientMessage::UpdateSpaceship(e) && e.id == k) by {
            assert(ms.skip(1)[i] == ms[i + 1]);
        }
        lemma_self_update_ignored_many(st, ms.skip(1), k);
    }
}

/// The client's local view of the world.
pub struct SpaceshipGame {
    pub ships: Vec<Spaceship>,
    pub mine: Option<u16>,
}

impl View for SpaceshipGame {
    type V = MirrorState;

    open spec fn view(&self) -> MirrorState {
        MirrorState { ships: self.ships@, mine: self.mine }
    }
}

impl SpaceshipGame {
    pub open spec fn wf(&self) -> bool {
        distinct_ids(self.ships@)
    }

    /// A client that knows of no entity and owns none yet; the surrounding
    /// program sends the opening `Hello` itself.
    pub fn new() -> (r: SpaceshipGame)
        ensures
            r@.ships == Seq::<Spaceship>::empty(),
            r@.mine is None,
            r.wf(),
    {
        SpaceshipGame { ships: Vec::new(), mine: None }
    }

    /// Index of the mirrored ship with identity `id`, if any.
    fn find_id(&self, id: u16) -> (r: Option<usize>)
        ensures
            match r {
                Some(i) => i == id_index(self.ships@, id) && has_id(self.ships@, id),
                None => !has_id(self.ships@, id),
            },
    {
        proof {
            lemma_id_index(self.ships@, id);
        }
        let n = self.ships.len();
        let mut i: usize = 0;
        while i < n
            invariant
                i <= n,
                n == self.ships@.len(),
                forall|j: int| 0 <= j < i ==> self.ships@[j].id != id,
            decreases n - i,
        {
            if self.ships[i].id == id {
                proof {
                    lemma_first_occurrence_id(self.ships@, id, i as int);
                }
                return Some(i);
            }
            i += 1;
        }
        None
    }

    /// A value copy of the client's own ship, once assigned and mirrored.
    pub fn my_ship(&self) -> (r: Option<Spaceship>)
        ensures
            r == match self@.mine {
                Some(id) => if has_id(self@.ships, id) {
                    Some(self@.ships[id_index(self@.ships, id)])
                } else {
                    None::<Spaceship>
                },
                None => None::<Spaceship>,
            },
    {
        match self.mine {
            Some(id) => match self.find_id(id) {
                Some(i) => Some(self.ships[i]),
                None => None,
            },
            None => None,
        }
    }

    /// Apply one server message to the local state.
    pub fn process_update(&mut self, message: ServerToClientMessage)
        requires
            old(self).wf(),
        ensures
            final(self).wf(),
            final(self)@ == apply_s2c(old(self)@, message),
    {
        match message {
            ServerToClientMessage::AssignSpaceship(id) => {
                self.mine = Some(id);
            },
            ServerToClientMessage::UpdateSpaceship(ship) => {
                let is_mine = match self.mine {
                    Some(k) => k == ship.id,
                    None => false,
                };
                if !is_mine {
                    self.upsert(ship);
                }
            },
            ServerToClientMessage::AddSpaceship(ship) => {
                self.upsert(ship);
            },
            ServerToClientMessage::RemoveSpaceship(id) => {
                match self.find_id(id) {
                    Some(i) => {
                        proof {
                            lemma_remove_distinct(self.ships@, id);
                        }
                        self.ships.remove(i);
                    },
                    None => {},
                }
            },
            ServerToClientMessage::Goodbye => {},
        }
    }

    /// Insert or replace the mirror entry for `ship.id`.
    fn upsert(&mut self, ship: Spaceship)
        requires
            old(self).wf(),
        ensures
            final(self).wf(),
            final(self).ships@ == mirror_upsert(old(self).ships@, ship),
            final(self).mine == old(self).mine,
    {
        proof {
            lemma_upsert_distinct(self.ships@, ship);
        }
        match self.find_id(ship.id) {
            Some(i) => {
                self.ships.set(i, ship);
            },
            None => {
                self.ships.push(ship);
            },
        }
    }

    /// Reconcile one carrier: every message of the shared batch in order,
    /// then every message of this destination's own batch.
    pub fn consume_update(&mut self, carrier: MessageCarrier)
        requires
            old(self).wf(),
        ensures
            final(self).wf(),
            final(self)@ == apply_carrier(old(self)@, carrier@),
    {
        let ghost st0 = self@;
        let n = carrier.general.len();
        let mut i: usize = 0;
        while i < n
            invariant
                i <= n,
                n == carrier@.general.len(),
                self.wf(),
                self@ == apply_msgs(st0, carrier@.general.take(i as int)),
            decreases n - i,
        {
            self.process_update(carrier.general[i]);
            proof {
                lemma_apply_msgs_push(st0, carrier@.general.take(i as int), carrier@.general[i as int]);
                assert(carrier@.general.take(i + 1) =~= carrier@.general.take(i as int).push(
                    carrier@.general[i as int],
                ));
            }
            i += 1;
        }
        proof {
            assert(carrier@.general.take(n as int) =~= carrier@.general);
        }
        let ghost st1 = apply_msgs(st0, carrier@.general);
        match carrier.specific {
            Some(specific) => {
                let m = specific.len();
                let mut j: usize = 0;
                while j < m
                    invariant
                        j <= m,
                        m == specific@.len(),
                        self.wf(),
                        self@ == apply_msgs(st1, specific@.take(j as int)),
                    decreases m - j,
                {
                    self.process_update(specific[j]);
                    proof {
                        lemma_apply_msgs_push(st1, specific@.take(j as int), specific@[j as int]);
                        assert(specific@.take(j + 1) =~= specific@.take(j as int).push(
                            specific@[j as int],
                        ));
                    }
                    j += 1;
                }
                proof {
                    assert(specific@.take(m as int) =~= specific@);
                }
            },
            None => {},
        }
    }
}

} // verus!
