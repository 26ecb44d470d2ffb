//! The authoritative registry: canonical per-connection player state and
//! the set of live entities, together with the replication broadcaster.
//!
//! Every operation returns the protocol messages it owes the transport as
//! a sequence of [`Outbound`] values, in the order they must be sent; the
//! caller hands them to the channel. The model-level transition functions
//! (`connect_effect`, `disconnect_effect`, `direction_effect`,
//! `tick_effect` and their `_msgs` companions) pin each operation down
//! exactly; the trace laws build on them.

use vstd::prelude::*;

use crate::protocol::Dest;
use crate::protocol::Direction;
use crate::protocol::Outbound;
use crate::protocol::Position;
use crate::protocol::ServerMessage;

verus! {

/// Authority-side record of one connected controller.
#[derive(Clone, Copy, Debug)]
pub struct PlayerEntry {
    pub client_id: u64,
    pub direction: Direction,
    pub entity: Option<u64>,
}

/// One live replicated entity: its stable identifier, the connection
/// that controls it, and its canonical position.
#[derive(Clone, Copy, Debug)]
pub struct EntityEntry {
    pub entity_id: u64,
    pub owner: u64,
    pub pos: Position,
}

/// Mathematical model of the registry: the player list, the live entity
/// list (both in insertion order), and the next fresh entity identifier.
#[verifier::ext_equal]
pub ghost struct RegistryModel {
    pub players: Seq<PlayerEntry>,
    pub entities: Seq<EntityEntry>,
    pub next_entity_id: u64,
}

pub open spec fn empty_model() -> RegistryModel {
    RegistryModel { players: Seq::empty(), entities: Seq::empty(), next_entity_id: 0 }
}

pub open spec fn has_player(m: RegistryModel, c: u64) -> bool {
    exists|i: int| 0 <= i < m.players.len() && (#[trigger] m.players[i]).client_id == c
}

/// Index of the player for connection `c`; meaningful only under `wf`,
/// where client identifiers are unique.
pub open spec fn player_at(m: RegistryModel, c: u64) -> int {
    choose|i: int| 0 <= i < m.players.len() && (#[trigger] m.players[i]).client_id == c
}

/// Direction latched for connection `c`; `Idle` when `c` is not connected.
pub open spec fn player_dir(m: RegistryModel, c: u64) -> Direction {
    if has_player(m, c) {
        m.players[player_at(m, c)].direction
    } else {
        Direction::Idle
    }
}

pub open spec fn has_entity(m: RegistryModel, e: u64) -> bool {
    exists|j: int| 0 <= j < m.entities.len() && (#[trigger] m.entities[j]).entity_id == e
}

/// Index of the entity with identifier `e`; meaningful only under `wf`.
pub open spec fn entity_at(m: RegistryModel, e: u64) -> int {
    choose|j: int| 0 <= j < m.entities.len() && (#[trigger] m.entities[j]).entity_id == e
}

pub open spec fn entity_owned_by(m: RegistryModel, e: u64, c: u64) -> bool {
    exists|j: int|
        0 <= j < m.entities.len() && (#[trigger] m.entities[j]).entity_id == e
            && m.entities[j].owner == c
}

pub open spec fn entity_backlinked(m: RegistryModel, j: int) -> bool {
    exists|i: int|
        0 <= i < m.players.len() && (#[trigger] m.players[i]).client_id == m.entities[j].owner
            && m.players[i].entity == Some(m.entities[j].entity_id)
}

/// Registry invariant: unique connection and entity identifiers, entity
/// identifiers below the allocation counter, and a bijection between
/// players' entity links and live entities.
pub open spec fn wf(m: RegistryModel) -> bool {
    &&& (forall|i: int, j: int|
        #![trigger m.players[i], m.players[j]]
        0 <= i < j < m.players.len() ==> m.players[i].client_id != m.players[j].client_id)
    &&& (forall|i: int, j: int|
        #![trigger m.entities[i], m.entities[j]]
        0 <= i < j < m.entities.len() ==> m.entities[i].entity_id != m.entities[j].entity_id)
    &&& (forall|j: int| 0 <= j < m.entities.len() ==> (#[trigger] m.entities[j]).entity_id < m.next_entity_id)
    &&& (forall|i: int|
        #![trigger m.players[i]]
        0 <= i < m.players.len() ==> (m.players[i].entity matches Some(e) ==> entity_owned_by(
            m,
            e,
            m.players[i].client_id,
        )))
    &&& (forall|j: int| 0 <= j < m.entities.len() ==> #[trigger] entity_backlinked(m, j))
}

pub proof fn lemma_player_at_is(m: RegistryModel, c: u64, i: int)
    requires
        wf(m),
        0 <= i < m.players.len(),
        m.players[i].client_id == c,
    ensures
        has_player(m, c),
        player_at(m, c) == i,
{
    assert(has_player(m, c));
    let k = player_at(m, c);
    if k != i {
        assert(m.players[k].client_id != m.players[i].client_id);
    }
}

pub proof fn lemma_entity_at_is(m: RegistryModel, e: u64, j: int)
    requires
        wf(m),
        0 <= j < m.entities.len(),
        m.entities[j].entity_id == e,
    ensures
        has_entity(m, e),
        entity_at(m, e) == j,
{
    assert(has_entity(m, e));
    let k = entity_at(m, e);
    if k != j {
        assert(m.entities[k].entity_id != m.entities[j].entity_id);
    }
}

// ---------------------------------------------------------------------
// Connection established
// ---------------------------------------------------------------------

/// State after accepting connection `c` with a fresh entity placed at `pos`.
pub open spec fn connect_effect(m: RegistryModel, c: u64, pos: Position) -> RegistryModel {
    RegistryModel {
        players: m.players.push(
            PlayerEntry { client_id: c, direction: Direction::Idle, entity: Some(m.next_entity_id) },
        ),
        entities: m.entities.push(EntityEntry { entity_id: m.next_entity_id, owner: c, pos }),
        next_entity_id: (m.next_entity_id + 1) as u64,
    }
}

/// Snapshot catch-up: one SpawnRect per pre-existing live entity,
/// addressed to the new connection only, in registry order.
pub open spec fn catchup_msgs(entities: Seq<EntityEntry>, c: u64) -> Seq<Outbound> {
    entities.map(
        |i: int, e: EntityEntry|
            Outbound {
                dest: Dest::To(c),
                msg: ServerMessage::SpawnRect { entity: e.entity_id, pos: e.pos },
            },
    )
}

/// Messages owed for a connect: the catch-up snapshot to the new
/// connection, its InitClient, then the broadcast of its own spawn.
pub open spec fn connect_msgs(m: RegistryModel, c: u64, pos: Position) -> Seq<Outbound> {
    catchup_msgs(m.entities, c).push(
        Outbound { dest: Dest::To(c), msg: ServerMessage::InitClient { client_id: c } },
    ).push(
        Outbound {
            dest: Dest::All,
            msg: ServerMessage::SpawnRect { entity: m.next_entity_id, pos },
        },
    )
}

pub proof fn lemma_connect_preserves_wf(m: RegistryModel, c: u64, pos: Position)
    requires
        wf(m),
        !has_player(m, c),
        m.next_entity_id < u64::MAX,
    ensures
        wf(connect_effect(m, c, pos)),
{
    let m2 = connect_effect(m, c, pos);
    let np = m.players.len() as int;
    let ne = m.entities.len() as int;
    assert forall|i: int| #![trigger m2.players[i]] 0 <= i < m2.players.len() implies (
    m2.players[i].entity matches Some(e) ==> entity_owned_by(m2, e, m2.players[i].client_id)) by {
        if i < np {
            if m.players[i].entity is Some {
                let e = m.players[i].entity->Some_0;
                let j = choose|j: int|
                    0 <= j < m.entities.len() && (#[trigger] m.entities[j]).entity_id == e
                        && m.entities[j].owner == m.players[i].client_id;
                assert(m2.entities[j].entity_id == e);
            }
        } else {
            assert(m2.entities[ne].entity_id == m.next_entity_id);
        }
    }
    assert forall|j: int| 0 <= j < m2.entities.len() implies #[trigger] entity_backlinked(
        m2,
        j,
    ) by {
        if j < ne {
            assert(entity_backlinked(m, j));
            let i = choose|i: int|
                0 <= i < m.players.len() && (#[trigger] m.players[i]).client_id
                    == m.entities[j].owner && m.players[i].entity == Some(m.entities[j].entity_id);
            assert(m2.players[i] == m.players[i]);
            assert(m2.players[i].client_id == m2.entities[j].owner);
        } else {
            assert(m2.players[np].client_id == m2.entities[j].owner);
        }
    }
}

// ---------------------------------------------------------------------
// Connection lost
// ---------------------------------------------------------------------

/// State after losing connection `c`: its player entry goes, and so does
/// its linked entity if it had one.
pub open spec fn disconnect_effect(m: RegistryModel, c: u64) -> RegistryModel {
    if has_player(m, c) {
        let i = player_at(m, c);
        let m1 = RegistryModel {
            players: m.players.remove(i),
            entities: m.entities,
            next_entity_id: m.next_entity_id,
        };
        if m.players[i].entity is Some {
            let e = m.players[i].entity->Some_0;
            if has_entity(m, e) {
                RegistryModel {
                    players: m1.players,
                    entities: m.entities.remove(entity_at(m, e)),
                    next_entity_id: m.next_entity_id,
                }
            } else {
                m1
            }
        } else {
            m1
        }
    } else {
        m
    }
}

/// Messages owed for a disconnect: one DespawnRect broadcast to the
/// remaining connections when the player had a linked entity; nothing
/// otherwise (a lost connection that never got its entity is a benign
/// transient, and an unknown connection is silently absorbed).
pub open spec fn disconnect_msgs(m: RegistryModel, c: u64) -> Seq<Outbound> {
    if has_player(m, c) && m.players[player_at(m, c)].entity is Some {
        seq![
            Outbound {
                dest: Dest::All,
                msg: ServerMessage::DespawnRect {
                    entity: m.players[player_at(m, c)].entity->Some_0,
                },
            },
        ]
    } else {
        Seq::empty()
    }
}

pub proof fn lemma_disconnect_preserves_wf(m: RegistryModel, c: u64)
    requires
        wf(m),
    ensures
        wf(disconnect_effect(m, c)),
{
    if has_player(m, c) {
        let i = player_at(m, c);
        let m2 = disconnect_effect(m, c);
        let np = m.players.len() as int;
        // index of a surviving player in the old list
        if m.players[i].entity is Some {
            let e = m.players[i].entity->Some_0;
            assert(entity_owned_by(m, e, c));
            let jw = choose|j: int|
                0 <= j < m.entities.len() && (#[trigger] m.entities[j]).entity_id == e
                    && m.entities[j].owner == c;
            lemma_entity_at_is(m, e, jw);
            let je = entity_at(m, e);
            assert(m.entities[je].owner == c);
            assert forall|k: int| #![trigger m2.players[k]] 0 <= k < m2.players.len() implies (
            m2.players[k].entity matches Some(e2) ==> entity_owned_by(
                m2,
                e2,
                m2.players[k].client_id,
            )) by {
                let ko = if k < i { k } else { k + 1 };
                assert(m2.players[k] == m.players[ko]);
                if m.players[ko].entity is Some {
                    let e2 = m.players[ko].entity->Some_0;
                    assert(entity_owned_by(m, e2, m.players[ko].client_id));
                    let j2 = choose|j: int|
                        0 <= j < m.entities.len() && (#[trigger] m.entities[j]).entity_id == e2
                            && m.entities[j].owner == m.players[ko].client_id;
                    // j2 is not the removed entity: its owner differs from c
                    assert(m.players[ko].client_id != c);
                    assert(j2 != je);
                    let j2n = if j2 < je { j2 } else { j2 - 1 };
                    assert(m2.entities[j2n] == m.entities[j2]);
                }
            }
            assert forall|j: int| 0 <= j < m2.entities.len() implies #[trigger] entity_backlinked(
                m2,
                j,
            ) by {
                let jo = if j < je { j } else { j + 1 };
                assert(m2.entities[j] == m.entities[jo]);
                assert(entity_backlinked(m, jo));
                let ip = choose|ip: int|
                    0 <= ip < m.players.len() && (#[trigger] m.players[ip]).client_id
                        == m.entities[jo].owner && m.players[ip].entity == Some(
                        m.entities[jo].entity_id,
                    );
                // ip is not the removed player: the removed player links e only
                assert(ip != i) by {
                    if ip == i {
                        assert(m.entities[jo].entity_id == e);
                        assert(jo == je || m.entities[jo].entity_id != m.entities[je].entity_id);
                    }
                }
                let ipn = if ip < i { ip } else { ip - 1 };
                assert(m2.players[ipn] == m.players[ip]);
            }
        } else {
            assert forall|k: int| #![trigger m2.players[k]] 0 <= k < m2.players.len() implies (
            m2.players[k].entity matches Some(e2) ==> entity_owned_by(
                m2,
                e2,
                m2.players[k].client_id,
            )) by {
                let ko = if k < i { k } else { k + 1 };
                assert(m2.players[k] == m.players[ko]);
                if m.players[ko].entity is Some {
                    let e2 = m.players[ko].entity->Some_0;
                    assert(entity_owned_by(m, e2, m.players[ko].client_id));
                    let j2 = choose|j: int|
                        0 <= j < m.entities.len() && (#[trigger] m.entities[j]).entity_id == e2
                            && m.entities[j].owner == m.players[ko].client_id;
                    assert(m2.entities[j2] == m.entities[j2]);
                }
            }
            assert forall|j: int| 0 <= j < m2.entities.len() implies #[trigger] entity_backlinked(
                m2,
                j,
            ) by {
                assert(entity_backlinked(m, j));
                let ip = choose|ip: int|
                    0 <= ip < m.players.len() && (#[trigger] m.players[ip]).client_id
                        == m.entities[j].owner && m.players[ip].entity == Some(
                        m.entities[j].entity_id,
                    );
                assert(ip != i);
                let ipn = if ip < i { ip } else { ip - 1 };
                assert(m2.players[ipn] == m.players[ip]);
            }
        }
    }
}

// ---------------------------------------------------------------------
// Direction message received
// ---------------------------------------------------------------------

/// State after a Direction message from `c`: last write wins; a message
/// from an already-removed connection is silently absorbed.
pub open spec fn direction_effect(m: RegistryModel, c: u64, d: Direction) -> RegistryModel {
    if has_player(m, c) {
        let i = player_at(m, c);
        RegistryModel {
            players: m.players.update(
                i,
                PlayerEntry {
                    client_id: m.players[i].client_id,
                    direction: d,
                    entity: m.players[i].entity,
                },
            ),
            entities: m.entities,
            next_entity_id: m.next_entity_id,
        }
    } else {
        m
    }
}

pub proof fn lemma_direction_preserves_wf(m: RegistryModel, c: u64, d: Direction)
    requires
        wf(m),
    ensures
        wf(direction_effect(m, c, d)),
{
    if has_player(m, c) {
        let m2 = direction_effect(m, c, d);
        assert forall|i: int| #![trigger m2.players[i]] 0 <= i < m2.players.len() implies (
        m2.players[i].entity matches Some(e) ==> entity_owned_by(m2, e, m2.players[i].client_id)) by {
            assert(m2.players[i].client_id == m.players[i].client_id);
            assert(m2.players[i].entity == m.players[i].entity);
            if m.players[i].entity is Some {
                let e = m.players[i].entity->Some_0;
                assert(entity_owned_by(m, e, m.players[i].client_id));
                let j = choose|j: int|
                    0 <= j < m.entities.len() && (#[trigger] m.entities[j]).entity_id == e
                        && m.entities[j].owner == m.players[i].client_id;
                assert(m2.entities[j] == m.entities[j]);
            }
        }
        assert forall|j: int| 0 <= j < m2.entities.len() implies #[trigger] entity_backlinked(
            m2,
            j,
        ) by {
            assert(entity_backlinked(m, j));
            let ip = choose|ip: int|
                0 <= ip < m.players.len() && (#[trigger] m.players[ip]).client_id
                    == m.entities[j].owner && m.players[ip].entity == Some(
                    m.entities[j].entity_id,
                );
            assert(m2.players[ip].client_id == m.players[ip].client_id);
            assert(m2.players[ip].entity == m.players[ip].entity);
        }
    }
}

// ---------------------------------------------------------------------
// Simulation tick
// ---------------------------------------------------------------------

/// Horizontal displacement for one tick of magnitude `step`.
pub open spec fn disp_x(d: Direction, step: int) -> int {
    match d {
        Direction::Left => -step,
        Direction::Right => step,
        _ => 0,
    }
}

/// Vertical displacement for one tick of magnitude `step`.
pub open spec fn disp_y(d: Direction, step: int) -> int {
    match d {
        Direction::Up => step,
        Direction::Down => -step,
        _ => 0,
    }
}

/// Whether the displacement is non-zero; only then is a move broadcast.
pub open spec fn displaced(d: Direction, step: int) -> bool {
    disp_x(d, step) != 0 || disp_y(d, step) != 0
}

/// `e` after one tick, moved by its owner's latched direction.
pub open spec fn moved_entity(m: RegistryModel, e: EntityEntry, step: int) -> EntityEntry {
    let d = player_dir(m, e.owner);
    EntityEntry {
        entity_id: e.entity_id,
        owner: e.owner,
        pos: Position {
            x: (e.pos.x + disp_x(d, step)) as i64,
            y: (e.pos.y + disp_y(d, step)) as i64,
        },
    }
}

/// State after one simulation tick of magnitude `step`.
pub open spec fn tick_effect(m: RegistryModel, step: int) -> RegistryModel {
    RegistryModel {
        players: m.players,
        entities: m.entities.map(|i: int, e: EntityEntry| moved_entity(m, e, step)),
        next_entity_id: m.next_entity_id,
    }
}

/// Messages owed for the first `n` entities of one tick: a RectMove
/// broadcast per entity whose displacement was non-zero, in registry
/// order (zero-suppression).
pub open spec fn tick_msgs_upto(m: RegistryModel, step: int, n: int) -> Seq<Outbound>
    decreases n,
{
    if n <= 0 {
        Seq::empty()
    } else {
        let rest = tick_msgs_upto(m, step, n - 1);
        let e = m.entities[n - 1];
        if displaced(player_dir(m, e.owner), step) {
            rest.push(
                Outbound {
                    dest: Dest::All,
                    msg: ServerMessage::RectMove {
                        entity: e.entity_id,
                        pos: moved_entity(m, e, step).pos,
                    },
                },
            )
        } else {
            rest
        }
    }
}

pub open spec fn tick_msgs(m: RegistryModel, step: int) -> Seq<Outbound> {
    tick_msgs_upto(m, step, m.entities.len() as int)
}

/// Machine limit: one tick's displacement keeps every coordinate in range.
pub open spec fn pos_step_safe(p: Position, step: int) -> bool {
    &&& p.x - step >= i64::MIN
    &&& p.x + step <= i64::MAX
    &&& p.y - step >= i64::MIN
    &&& p.y + step <= i64::MAX
}

pub open spec fn step_safe(m: RegistryModel, step: int) -> bool {
    &&& 0 <= step
    &&& forall|i: int|
        0 <= i < m.entities.len() ==> pos_step_safe((#[trigger] m.entities[i]).pos, step)
}

pub proof fn lemma_tick_preserves_wf(m: RegistryModel, step: int)
    requires
        wf(m),
    ensures
        wf(tick_effect(m, step)),
{
    let m2 = tick_effect(m, step);
    assert forall|i: int| #![trigger m2.players[i]] 0 <= i < m2.players.len() implies (
    m2.players[i].entity matches Some(e) ==> entity_owned_by(m2, e, m2.players[i].client_id)) by {
        if m.players[i].entity is Some {
            let e = m.players[i].entity->Some_0;
            assert(entity_owned_by(m, e, m.players[i].client_id));
            let j = choose|j: int|
                0 <= j < m.entities.len() && (#[trigger] m.entities[j]).entity_id == e
                    && m.entities[j].owner == m.players[i].client_id;
            assert(m2.entities[j].entity_id == e);
            assert(m2.entities[j].owner == m.players[i].client_id);
        }
    }
    assert forall|j: int| 0 <= j < m2.entities.len() implies #[trigger] entity_backlinked(
        m2,
        j,
    ) by {
        assert(entity_backlinked(m, j));
        assert(m2.entities[j].owner == m.entities[j].owner);
        assert(m2.entities[j].entity_id == m.entities[j].entity_id);
    }
}

// ---------------------------------------------------------------------
// Executable registry
// ---------------------------------------------------------------------

/// Reference movement speed, in distance units per second.
pub const SPEED: i64 = 100;

/// Displacement magnitude for one tick: speed in units per second times
/// the tick length in milliseconds, scaled to distance units.
pub fn step_of(speed: i64, tick_millis: i64) -> (step: i64)
    requires
        0 <= speed <= 1000000,
        0 <= tick_millis <= 1000000,
    ensures
        step == speed * tick_millis / 1000,
        0 <= step <= 1000000000,
{
    proof {
        assert(0 <= speed * tick_millis <= 1000000000000) by (nonlinear_arith)
            requires
                0 <= speed <= 1000000,
                0 <= tick_millis <= 1000000,
        ;
    }
    (speed * tick_millis) / 1000
}

/// The authoritative registry and broadcaster.
pub struct Registry {
    players: Vec<PlayerEntry>,
    entities: Vec<EntityEntry>,
    next_entity_id: u64,
}

impl View for Registry {
    type V = RegistryModel;

    closed spec fn view(&self) -> RegistryModel {
        RegistryModel {
            players: self.players@,
            entities: self.entities@,
            next_entity_id: self.next_entity_id,
        }
    }
}

impl Default for Registry {
    fn default() -> (r: Registry)
        ensures
            wf(r@),
            r@ == empty_model(),
    {
        Registry::new()
    }
}

impl Registry {
    /// A fresh authority with no connections and no live entities.
    pub fn new() -> (r: Registry)
        ensures
            wf(r@),
            r@ == empty_model(),
    {
        let r = Registry { players: Vec::new(), entities: Vec::new(), next_entity_id: 0 };
        proof {
            assert(r@ =~= empty_model());
        }
        r
    }

    fn player_index(&self, client_id: u64) -> (r: Option<usize>)
        ensures
            match r {
                Some(i) => i < self@.players.len() && self@.players[i as int].client_id
                    == client_id,
                None => !has_player(self@, client_id),
            },
    {
        let mut i: usize = 0;
        while i < self.players.len()
            invariant
                i <= self@.players.len(),
                forall|j: int| 0 <= j < i ==> (#[trigger] self@.players[j]).client_id != client_id,
            decreases self@.players.len() - i,
        {
            if self.players[i].client_id == client_id {
                return Some(i);
            }
            i += 1;
        }
        None
    }

    fn entity_index(&self, entity_id: u64) -> (r: Option<usize>)
        ensures
            match r {
                Some(j) => j < self@.entities.len() && self@.entities[j as int].entity_id
                    == entity_id,
                None => !has_entity(self@, entity_id),
            },
    {
        let mut j: usize = 0;
        while j < self.entities.len()
            invariant
                j <= self@.entities.len(),
                forall|k: int|
                    0 <= k < j ==> (#[trigger] self@.entities[k]).entity_id != entity_id,
            decreases self@.entities.len() - j,
        {
            if self.entities[j].entity_id == entity_id {
                return Some(j);
            }
            j += 1;
        }
        None
    }

    /// Accept a new connection: register its player, send the catch-up
    /// snapshot to it alone, create and link its entity at `pos`, tell it
    /// its own identity, and broadcast the new spawn to everyone.
    pub fn handle_connection(&mut self, client_id: u64, pos: Position) -> (out: Vec<Outbound>)
        requires
            wf(old(self)@),
            !has_player(old(self)@, client_id),
            old(self)@.next_entity_id < u64::MAX,
        ensures
            wf(final(self)@),
            final(self)@ == connect_effect(old(self)@, client_id, pos),
            out@ == connect_msgs(old(self)@, client_id, pos),
    {
        let ghost m0 = self@;
        let mut out: Vec<Outbound> = Vec::new();
        let mut i: usize = 0;
        while i < self.entities.len()
            invariant
                self@ == m0,
                i <= m0.entities.len(),
                out@.len() == i,
                forall|j: int|
                    0 <= j < i ==> out@[j] == (catchup_msgs(m0.entities, client_id))[j],
            decreases m0.entities.len() - i,
        {
            let e = self.entities[i];
            out.push(
                Outbound {
                    dest: Dest::To(client_id),
                    msg: ServerMessage::SpawnRect { entity: e.entity_id, pos: e.pos },
                },
            );
            i += 1;
        }
        proof {
            assert(out@ =~= catchup_msgs(m0.entities, client_id));
        }
        let entity_id = self.next_entity_id;
        self.players.push(
            PlayerEntry { client_id, direction: Direction::Idle, entity: Some(entity_id) },
        );
        self.entities.push(EntityEntry { entity_id, owner: client_id, pos });
        self.next_entity_id = entity_id + 1;
        out.push(Outbound { dest: Dest::To(client_id), msg: ServerMessage::InitClient { client_id } });
        out.push(Outbound { dest: Dest::All, msg: ServerMessage::SpawnRect { entity: entity_id, pos } });
        proof {
            assert(self@ =~= connect_effect(m0, client_id, pos));
            assert(out@ =~= connect_msgs(m0, client_id, pos));
            lemma_connect_preserves_wf(m0, client_id, pos);
        }
        out
    }

    /// Retire a lost connection: drop its player, despawn its linked
    /// entity if it had one, and broadcast the despawn to the remaining
    /// connections. A connection the registry does not know is a no-op.
    pub fn handle_connection_lost(&mut self, client_id: u64) -> (out: Vec<Outbound>)
        requires
            wf(old(self)@),
        ensures
            wf(final(self)@),
            final(self)@ == disconnect_effect(old(self)@, client_id),
            out@ == disconnect_msgs(old(self)@, client_id),
    {
        let ghost m0 = self@;
        let mut out: Vec<Outbound> = Vec::new();
        match self.player_index(client_id) {
            Option::None => {
                proof {
                    assert(self@ =~= disconnect_effect(m0, client_id));
                    assert(out@ =~= disconnect_msgs(m0, client_id));
                }
            }
            Option::Some(i) => {
                proof {
                    lemma_player_at_is(m0, client_id, i as int);
                }
                let p = self.players[i];
                self.players.remove(i);
                match p.entity {
                    Option::None => {
                        proof {
                            assert(self@ =~= disconnect_effect(m0, client_id));
                            assert(out@ =~= disconnect_msgs(m0, client_id));
                        }
                    }
                    Option::Some(e) => {
                        match self.entity_index(e) {
                            Option::Some(j) => {
                                proof {
                                    lemma_entity_at_is(m0, e, j as int);
                                }
                                self.entities.remove(j);
                            }
                            Option::None => {}
                        }
                        out.push(
                            Outbound {
                                dest: Dest::All,
                                msg: ServerMessage::DespawnRect { entity: e },
                            },
                        );
                        proof {
                            assert(self@ =~= disconnect_effect(m0, client_id));
                            assert(out@ =~= disconnect_msgs(m0, client_id));
                        }
                    }
                }
            }
        }
        proof {
            lemma_disconnect_preserves_wf(m0, client_id);
        }
        out
    }

    /// Latch a Direction message from `client_id`: last write wins; a
    /// message from a connection already removed is silently absorbed.
    pub fn handle_direction(&mut self, client_id: u64, direction: Direction)
        requires
            wf(old(self)@),
        ensures
            wf(final(self)@),
            final(self)@ == direction_effect(old(self)@, client_id, direction),
    {
        let ghost m0 = self@;
        match self.player_index(client_id) {
            Option::None => {
                proof {
                    assert(self@ =~= direction_effect(m0, client_id, direction));
                }
            }
            Option::Some(i) => {
                proof {
                    lemma_player_at_is(m0, client_id, i as int);
                }
                let mut p = self.players[i];
                p.direction = direction;
                self.players.set(i, p);
                proof {
                    assert(self@.players =~= direction_effect(m0, client_id, direction).players);
                    assert(self@ =~= direction_effect(m0, client_id, direction));
                }
            }
        }
        proof {
            lemma_direction_preserves_wf(m0, client_id, direction);
        }
    }

    /// One fixed simulation tick of magnitude `step` (distance units this
    /// tick): every entity moves by its owner's latched direction, and a
    /// RectMove is broadcast for it only if the displacement was non-zero.
    pub fn tick(&mut self, step: i64) -> (out: Vec<Outbound>)
        requires
            wf(old(self)@),
            step_safe(old(self)@, step as int),
        ensures
            wf(final(self)@),
            final(self)@ == tick_effect(old(self)@, step as int),
            out@ == tick_msgs(old(self)@, step as int),
    {
        let ghost m0 = self@;
        let mut out: Vec<Outbound> = Vec::new();
        let mut i: usize = 0;
        while i < self.entities.len()
            invariant
                wf(m0),
                step_safe(m0, step as int),
                self@.players == m0.players,
                self@.next_entity_id == m0.next_entity_id,
                self@.entities.len() == m0.entities.len(),
                i <= m0.entities.len(),
                forall|j: int|
                    0 <= j < i ==> self@.entities[j] == moved_entity(
                        m0,
                        (#[trigger] m0.entities[j]),
                        step as int,
                    ),
                forall|j: int|
                    i <= j < m0.entities.len() ==> self@.entities[j] == (#[trigger] m0.entities[j]),
                out@ == tick_msgs_upto(m0, step as int, i as int),
            decreases m0.entities.len() - i,
        {
            let e = self.entities[i];
            let d = match self.player_index(e.owner) {
                Option::Some(pi) => {
                    proof {
                        lemma_player_at_is(m0, e.owner, pi as int);
                    }
                    self.players[pi].direction
                }
                Option::None => Direction::Idle,
            };
            proof {
                assert(d == player_dir(m0, e.owner));
            }
            let mut dx: i64 = 0;
            let mut dy: i64 = 0;
            match d {
                Direction::Idle => {}
                Direction::Up => {
                    dy = step;
                }
                Direction::Down => {
                    dy = -step;
                }
                Direction::Left => {
                    dx = -step;
                }
                Direction::Right => {
                    dx = step;
                }
            }
            proof {
                assert(e == m0.entities[i as int]);
                assert(pos_step_safe(m0.entities[i as int].pos, step as int));
            }
            if dx != 0 || dy != 0 {
                let np = Position { x: e.pos.x + dx, y: e.pos.y + dy };
                let ne = EntityEntry { entity_id: e.entity_id, owner: e.owner, pos: np };
                self.entities.set(i, ne);
                out.push(
                    Outbound {
                        dest: Dest::All,
                        msg: ServerMessage::RectMove { entity: e.entity_id, pos: np },
                    },
                );
            }
            i += 1;
        }
        proof {
            assert(self@.entities =~= tick_effect(m0, step as int).entities);
            assert(self@ =~= tick_effect(m0, step as int));
            lemma_tick_preserves_wf(m0, step as int);
        }
        out
    }

    /// How many connections are registered.
    pub fn player_count(&self) -> (n: usize)
        ensures
            n == self@.players.len(),
    {
        self.players.len()
    }

    /// How many entities are live.
    pub fn entity_count(&self) -> (n: usize)
        ensures
            n == self@.entities.len(),
    {
        self.entities.len()
    }

    /// The next entity identifier the authority will assign.
    pub fn next_id(&self) -> (r: u64)
        ensures
            r == self@.next_entity_id,
    {
        self.next_entity_id
    }

    /// Whether connection `client_id` is currently registered.
    pub fn is_connected(&self, client_id: u64) -> (b: bool)
        ensures
            b == has_player(self@, client_id),
    {
        match self.player_index(client_id) {
            Option::Some(i) => {
                proof {
                    assert(self@.players[i as int].client_id == client_id);
                }
                true
            }
            Option::None => false,
        }
    }

    /// Whether an entity with identifier `entity_id` is live.
    pub fn contains_entity(&self, entity_id: u64) -> (b: bool)
        ensures
            b == has_entity(self@, entity_id),
    {
        match self.entity_index(entity_id) {
            Option::Some(j) => {
                proof {
                    assert(self@.entities[j as int].entity_id == entity_id);
                }
                true
            }
            Option::None => false,
        }
    }

    /// The canonical position of entity `entity_id`, if it is live.
    pub fn entity_position(&self, entity_id: u64) -> (r: Option<Position>)
        requires
            wf(self@),
        ensures
            match r {
                Some(p) => has_entity(self@, entity_id) && p == self@.entities[entity_at(
                    self@,
                    entity_id,
                )].pos,
                None => !has_entity(self@, entity_id),
            },
    {
        match self.entity_index(entity_id) {
            Option::Some(j) => {
                proof {
                    lemma_entity_at_is(self@, entity_id, j as int);
                }
                Some(self.entities[j].pos)
            }
            Option::None => Option::None,
        }
    }

    /// The latched direction of connection `client_id`, if registered.
    pub fn player_direction(&self, client_id: u64) -> (r: Option<Direction>)
        requires
            wf(self@),
        ensures
            match r {
                Some(d) => has_player(self@, client_id) && d == player_dir(self@, client_id),
                None => !has_player(self@, client_id),
            },
    {
        match self.player_index(client_id) {
            Option::Some(i) => {
                proof {
                    lemma_player_at_is(self@, client_id, i as int);
                }
                Some(self.players[i].direction)
            }
            Option::None => Option::None,
        }
    }

    /// The entity linked to connection `client_id`, if registered and linked.
    pub fn linked_entity(&self, client_id: u64) -> (r: Option<u64>)
        requires
            wf(self@),
        ensures
            match r {
                Some(e) => has_player(self@, client_id) && self@.players[player_at(
                    self@,
                    client_id,
                )].entity == Some(e),
                None => !has_player(self@, client_id) || self@.players[player_at(
                    self@,
                    client_id,
                )].entity is None,
            },
    {
        match self.player_index(client_id) {
            Option::Some(i) => {
                proof {
                    lemma_player_at_is(self@, client_id, i as int);
                }
                self.players[i].entity
            }
            Option::None => Option::None,
        }
    }

    /// The identifiers of every connection, in registration order; the
    /// audience of a `Dest::All` message at this moment.
    pub fn client_ids(&self) -> (r: Vec<u64>)
        ensures
            r@.len() == self@.players.len(),
            forall|i: int| 0 <= i < r@.len() ==> r@[i] == (#[trigger] self@.players[i]).client_id,
    {
        let mut r: Vec<u64> = Vec::new();
        let mut i: usize = 0;
        while i < self.players.len()
            invariant
                i <= self@.players.len(),
                r@.len() == i,
                forall|j: int|
                    0 <= j < i ==> r@[j] == (#[trigger] self@.players[j]).client_id,
            decreases self@.players.len() - i,
        {
            r.push(self.players[i].client_id);
            i += 1;
        }
        r
    }
}

} // verus!
