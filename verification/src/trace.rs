//! Trace-level laws of the replication protocol: what holds of the whole
//! stream of messages the authority emits over any admissible sequence of
//! transport events, and of what each connected observer is delivered.
//!
//! A broadcast's audience is the set of connections registered at the
//! moment it is handed to the transport, which is the registry state right
//! after the step that emitted it.

use vstd::prelude::*;

use crate::protocol::Dest;
use crate::protocol::Direction;
use crate::protocol::Outbound;
use crate::protocol::Position;
use crate::protocol::ServerMessage;
use crate::mirror::apply_effect;
use crate::mirror::apply_ok;
use crate::mirror::empty_mirror;
use crate::mirror::mirror_has;
use crate::mirror::mirror_wf;
use crate::mirror::MirrorModel;
use crate::mirror::RectEntry;
use crate::registry::EntityEntry;
use crate::registry::RegistryModel;
use crate::registry::connect_effect;
use crate::registry::connect_msgs;
use crate::registry::catchup_msgs;
use crate::registry::direction_effect;
use crate::registry::disconnect_effect;
use crate::registry::disconnect_msgs;
use crate::registry::entity_owned_by;
use crate::registry::has_entity;
use crate::registry::has_player;
use crate::registry::lemma_connect_preserves_wf;
use crate::registry::lemma_direction_preserves_wf;
use crate::registry::lemma_disconnect_preserves_wf;
use crate::registry::lemma_entity_at_is;
use crate::registry::lemma_player_at_is;
use crate::registry::lemma_tick_preserves_wf;
use crate::registry::player_at;
use crate::registry::player_dir;
use crate::registry::tick_effect;
use crate::registry::tick_msgs;
use crate::registry::tick_msgs_upto;
use crate::registry::displaced;
use crate::registry::moved_entity;
use crate::registry::entity_at;
use crate::registry::wf;

verus! {

/// One transport event the authority reacts to.
pub ghost enum Event {
    Connect { client_id: u64, pos: Position },
    Disconnect { client_id: u64 },
    DirectionMsg { client_id: u64, direction: Direction },
    Tick { step: int },
}

/// What the transport guarantees of an event: a connect event names a
/// connection that is not currently open (and the authority must have an
/// identifier left to assign).
pub open spec fn event_ok(m: RegistryModel, ev: Event) -> bool {
    match ev {
        Event::Connect { client_id, .. } => !has_player(m, client_id) && m.next_entity_id
            < u64::MAX,
        _ => true,
    }
}

/// The registry state after reacting to one event.
pub open spec fn step_state(m: RegistryModel, ev: Event) -> RegistryModel {
    match ev {
        Event::Connect { client_id, pos } => connect_effect(m, client_id, pos),
        Event::Disconnect { client_id } => disconnect_effect(m, client_id),
        Event::DirectionMsg { client_id, direction } => direction_effect(m, client_id, direction),
        Event::Tick { step } => tick_effect(m, step),
    }
}

/// The messages one event puts on the wire, in order.
pub open spec fn step_msgs(m: RegistryModel, ev: Event) -> Seq<Outbound> {
    match ev {
        Event::Connect { client_id, pos } => connect_msgs(m, client_id, pos),
        Event::Disconnect { client_id } => disconnect_msgs(m, client_id),
        Event::DirectionMsg { .. } => Seq::empty(),
        Event::Tick { step } => tick_msgs(m, step),
    }
}

/// The registry state after a whole event sequence.
pub open spec fn run_state(m: RegistryModel, evs: Seq<Event>) -> RegistryModel
    decreases evs.len(),
{
    if evs.len() == 0 {
        m
    } else {
        run_state(step_state(m, evs[0]), evs.drop_first())
    }
}

/// Every message a whole event sequence puts on the wire, in order.
pub open spec fn run_msgs(m: RegistryModel, evs: Seq<Event>) -> Seq<Outbound>
    decreases evs.len(),
{
    if evs.len() == 0 {
        Seq::empty()
    } else {
        step_msgs(m, evs[0]) + run_msgs(step_state(m, evs[0]), evs.drop_first())
    }
}

/// Whether every event of the sequence is admissible in the state it
/// meets.
pub open spec fn trace_ok(m: RegistryModel, evs: Seq<Event>) -> bool
    decreases evs.len(),
{
    evs.len() == 0 || (event_ok(m, evs[0]) && trace_ok(step_state(m, evs[0]), evs.drop_first()))
}

/// Whether an outbound message reaches connection `c`, given the registry
/// state `post` right after the step that emitted it.
pub open spec fn delivered_to(o: Outbound, post: RegistryModel, c: u64) -> bool {
    match o.dest {
        Dest::To(x) => x == c,
        Dest::All => has_player(post, c),
    }
}

/// The messages of `msgs` that reach connection `c`, in order.
pub open spec fn deliver_msgs(msgs: Seq<Outbound>, post: RegistryModel, c: u64) -> Seq<
    ServerMessage,
>
    decreases msgs.len(),
{
    if msgs.len() == 0 {
        Seq::empty()
    } else {
        let rest = deliver_msgs(msgs.drop_first(), post, c);
        if delivered_to(msgs[0], post, c) {
            seq![msgs[0].msg] + rest
        } else {
            rest
        }
    }
}

/// What one event delivers to connection `c`.
pub open spec fn step_deliver(m: RegistryModel, ev: Event, c: u64) -> Seq<ServerMessage> {
    deliver_msgs(step_msgs(m, ev), step_state(m, ev), c)
}

/// What a whole event sequence delivers to connection `c`, in order.
pub open spec fn run_deliver(m: RegistryModel, evs: Seq<Event>, c: u64) -> Seq<ServerMessage>
    decreases evs.len(),
{
    if evs.len() == 0 {
        Seq::empty()
    } else {
        step_deliver(m, evs[0], c) + run_deliver(step_state(m, evs[0]), evs.drop_first(), c)
    }
}

// ---------------------------------------------------------------------
// Message shapes and counting
// ---------------------------------------------------------------------

pub open spec fn is_spawn_of(msg: ServerMessage, e: u64) -> bool {
    match msg {
        ServerMessage::SpawnRect { entity, .. } => entity == e,
        _ => false,
    }
}

pub open spec fn is_move_of(msg: ServerMessage, e: u64) -> bool {
    match msg {
        ServerMessage::RectMove { entity, .. } => entity == e,
        _ => false,
    }
}

pub open spec fn is_despawn_of(msg: ServerMessage, e: u64) -> bool {
    match msg {
        ServerMessage::DespawnRect { entity } => entity == e,
        _ => false,
    }
}

/// A SpawnRect for `e` broadcast to every connection (the catch-up
/// snapshot copies are unicast and do not count as broadcasts).
pub open spec fn is_bcast_spawn(o: Outbound, e: u64) -> bool {
    o.dest is All && is_spawn_of(o.msg, e)
}

/// How many elements of `s` satisfy `p`.
pub open spec fn count_where<A>(s: Seq<A>, p: spec_fn(A) -> bool) -> nat
    decreases s.len(),
{
    if s.len() == 0 {
        0
    } else {
        (if p(s[0]) {
            1nat
        } else {
            0nat
        }) + count_where(s.drop_first(), p)
    }
}

pub proof fn lemma_count_concat<A>(a: Seq<A>, b: Seq<A>, p: spec_fn(A) -> bool)
    ensures
        count_where(a + b, p) == count_where(a, p) + count_where(b, p),
    decreases a.len(),
{
    if a.len() == 0 {
        assert(a + b =~= b);
    } else {
        assert((a + b).drop_first() =~= a.drop_first() + b);
        assert((a + b)[0] == a[0]);
        lemma_count_concat(a.drop_first(), b, p);
    }
}

pub proof fn lemma_count_none<A>(s: Seq<A>, p: spec_fn(A) -> bool)
    requires
        forall|i: int| 0 <= i < s.len() ==> !#[trigger] p(s[i]),
    ensures
        count_where(s, p) == 0,
    decreases s.len(),
{
    if s.len() > 0 {
        assert(!p(s[0]));
        assert forall|i: int| 0 <= i < s.drop_first().len() implies !#[trigger] p(
            s.drop_first()[i],
        ) by {
            assert(s.drop_first()[i] == s[i + 1]);
        }
        lemma_count_none(s.drop_first(), p);
    }
}

pub proof fn lemma_count_one<A>(s: Seq<A>, p: spec_fn(A) -> bool, k: int)
    requires
        0 <= k < s.len(),
        p(s[k]),
        forall|i: int| 0 <= i < s.len() && i != k ==> !#[trigger] p(s[i]),
    ensures
        count_where(s, p) == 1,
    decreases s.len(),
{
    if k == 0 {
        assert forall|i: int| 0 <= i < s.drop_first().len() implies !#[trigger] p(
            s.drop_first()[i],
        ) by {
            assert(s.drop_first()[i] == s[i + 1]);
        }
        lemma_count_none(s.drop_first(), p);
    } else {
        assert(!p(s[0]));
        assert forall|i: int| 0 <= i < s.drop_first().len() && i != k - 1 implies !#[trigger] p(
            s.drop_first()[i],
        ) by {
            assert(s.drop_first()[i] == s[i + 1]);
        }
        assert(s.drop_first()[k - 1] == s[k]);
        lemma_count_one(s.drop_first(), p, k - 1);
    }
}

/// If every source message satisfying `p` misses connection `c`, nothing
/// delivered to `c` satisfies `p`.
pub proof fn lemma_deliver_excluded(
    msgs: Seq<Outbound>,
    post: RegistryModel,
    c: u64,
    p: spec_fn(ServerMessage) -> bool,
)
    requires
        forall|i: int|
            0 <= i < msgs.len() ==> (p((#[trigger] msgs[i]).msg) ==> !delivered_to(
                msgs[i],
                post,
                c,
            )),
    ensures
        count_where(deliver_msgs(msgs, post, c), p) == 0,
    decreases msgs.len(),
{
    if msgs.len() > 0 {
        assert forall|i: int| 0 <= i < msgs.drop_first().len() implies (p(
            (#[trigger] msgs.drop_first()[i]).msg,
        ) ==> !delivered_to(msgs.drop_first()[i], post, c)) by {
            assert(msgs.drop_first()[i] == msgs[i + 1]);
        }
        lemma_deliver_excluded(msgs.drop_first(), post, c, p);
        if delivered_to(msgs[0], post, c) {
            let rest = deliver_msgs(msgs.drop_first(), post, c);
            let whole = seq![msgs[0].msg] + rest;
            assert(whole.drop_first() =~= rest);
            assert(!p(whole[0]));
        }
    }
}

/// If every source message reaches `c`, the delivery is exactly the
/// message sequence.
pub proof fn lemma_deliver_all(msgs: Seq<Outbound>, post: RegistryModel, c: u64)
    requires
        forall|i: int| 0 <= i < msgs.len() ==> delivered_to(#[trigger] msgs[i], post, c),
    ensures
        deliver_msgs(msgs, post, c) == msgs.map_values(|o: Outbound| o.msg),
    decreases msgs.len(),
{
    if msgs.len() == 0 {
        assert(deliver_msgs(msgs, post, c) =~= msgs.map_values(|o: Outbound| o.msg));
    } else {
        assert forall|i: int| 0 <= i < msgs.drop_first().len() implies delivered_to(
            #[trigger] msgs.drop_first()[i],
            post,
            c,
        ) by {
            assert(msgs.drop_first()[i] == msgs[i + 1]);
        }
        lemma_deliver_all(msgs.drop_first(), post, c);
        assert(delivered_to(msgs[0], post, c));
        assert(deliver_msgs(msgs, post, c) =~= msgs.map_values(|o: Outbound| o.msg));
    }
}

pub open spec fn spawn_of_pred(e: u64) -> spec_fn(ServerMessage) -> bool {
    |msg: ServerMessage| is_spawn_of(msg, e)
}

pub open spec fn move_or_despawn_pred(e: u64) -> spec_fn(ServerMessage) -> bool {
    |msg: ServerMessage| is_move_of(msg, e) || is_despawn_of(msg, e)
}

pub open spec fn bcast_spawn_pred(e: u64) -> spec_fn(Outbound) -> bool {
    |o: Outbound| is_bcast_spawn(o, e)
}

pub open spec fn despawn_out_pred(e: u64) -> spec_fn(Outbound) -> bool {
    |o: Outbound| is_despawn_of(o.msg, e)
}

pub open spec fn is_connect_of(ev: Event, c: u64) -> bool {
    match ev {
        Event::Connect { client_id, .. } => client_id == c,
        _ => false,
    }
}

// ---------------------------------------------------------------------
// Preservation over traces
// ---------------------------------------------------------------------

pub proof fn lemma_step_preserves_wf(m: RegistryModel, ev: Event)
    requires
        wf(m),
        event_ok(m, ev),
    ensures
        wf(step_state(m, ev)),
        m.next_entity_id <= step_state(m, ev).next_entity_id,
{
    match ev {
        Event::Connect { client_id, pos } => {
            lemma_connect_preserves_wf(m, client_id, pos);
        }
        Event::Disconnect { client_id } => {
            lemma_disconnect_preserves_wf(m, client_id);
        }
        Event::DirectionMsg { client_id, direction } => {
            lemma_direction_preserves_wf(m, client_id, direction);
        }
        Event::Tick { step } => {
            lemma_tick_preserves_wf(m, step);
        }
    }
}

/// The registry invariant holds in every state an admissible trace can
/// reach, and entity identifiers are allocated monotonically, so an
/// identifier is never reused over the authority's lifetime.
pub proof fn lemma_run_preserves_wf(m: RegistryModel, evs: Seq<Event>)
    requires
        wf(m),
        trace_ok(m, evs),
    ensures
        wf(run_state(m, evs)),
        m.next_entity_id <= run_state(m, evs).next_entity_id,
    decreases evs.len(),
{
    if evs.len() > 0 {
        lemma_step_preserves_wf(m, evs[0]);
        lemma_run_preserves_wf(step_state(m, evs[0]), evs.drop_first());
    }
}

/// Every message of one tick is a RectMove broadcast for one of the
/// entities whose displacement was non-zero.
pub proof fn lemma_tick_msgs_shape(m: RegistryModel, step: int, n: int)
    requires
        n <= m.entities.len(),
    ensures
        forall|j: int|
            0 <= j < tick_msgs_upto(m, step, n).len() ==> exists|k: int|
                0 <= k < n && (#[trigger] tick_msgs_upto(m, step, n)[j]) == (Outbound {
                    dest: Dest::All,
                    msg: ServerMessage::RectMove {
                        entity: m.entities[k].entity_id,
                        pos: moved_entity(m, m.entities[k], step).pos,
                    },
                }) && displaced(player_dir(m, m.entities[k].owner), step),
    decreases n,
{
    if n > 0 {
        lemma_tick_msgs_shape(m, step, n - 1);
        let prev = tick_msgs_upto(m, step, n - 1);
        let cur = tick_msgs_upto(m, step, n);
        let e = m.entities[n - 1];
        if displaced(player_dir(m, e.owner), step) {
            assert forall|j: int| 0 <= j < cur.len() implies exists|k: int|
                0 <= k < n && (#[trigger] cur[j]) == (Outbound {
                    dest: Dest::All,
                    msg: ServerMessage::RectMove {
                        entity: m.entities[k].entity_id,
                        pos: moved_entity(m, m.entities[k], step).pos,
                    },
                }) && displaced(player_dir(m, m.entities[k].owner), step) by {
                if j < prev.len() {
                    assert(cur[j] == prev[j]);
                } else {
                    assert(cur[j] == (Outbound {
                        dest: Dest::All,
                        msg: ServerMessage::RectMove {
                            entity: m.entities[n - 1].entity_id,
                            pos: moved_entity(m, m.entities[n - 1], step).pos,
                        },
                    }));
                }
            }
        }
    }
}

// ---------------------------------------------------------------------
// Liveness of entities across steps, and what each step may emit
// ---------------------------------------------------------------------

/// A connect leaves the liveness of every pre-allocated entity unchanged.
pub proof fn lemma_connect_keeps_entities(m: RegistryModel, c: u64, pos: Position, e: u64)
    requires
        e != m.next_entity_id,
    ensures
        has_entity(connect_effect(m, c, pos), e) == has_entity(m, e),
{
    let m2 = connect_effect(m, c, pos);
    let ne = m.entities.len() as int;
    if has_entity(m, e) {
        let j = choose|j: int|
            0 <= j < m.entities.len() && (#[trigger] m.entities[j]).entity_id == e;
        assert(m2.entities[j].entity_id == e);
    }
    if has_entity(m2, e) {
        let j = choose|j: int|
            0 <= j < m2.entities.len() && (#[trigger] m2.entities[j]).entity_id == e;
        assert(j < ne);
        assert(m.entities[j].entity_id == e);
    }
}

/// A tick moves entities but neither creates nor removes them.
pub proof fn lemma_tick_keeps_entities(m: RegistryModel, step: int, e: u64)
    ensures
        has_entity(tick_effect(m, step), e) == has_entity(m, e),
{
    let m2 = tick_effect(m, step);
    if has_entity(m, e) {
        let j = choose|j: int|
            0 <= j < m.entities.len() && (#[trigger] m.entities[j]).entity_id == e;
        assert(m2.entities[j].entity_id == e);
    }
    if has_entity(m2, e) {
        let j = choose|j: int|
            0 <= j < m2.entities.len() && (#[trigger] m2.entities[j]).entity_id == e;
        assert(m.entities[j].entity_id == e);
    }
}

/// A connect emits no DespawnRect and keeps pre-allocated entities.
proof fn lemma_step_despawn_connect(m: RegistryModel, c: u64, pos: Position, e: u64)
    requires
        wf(m),
        !has_player(m, c),
        m.next_entity_id < u64::MAX,
        e < m.next_entity_id,
    ensures
        count_where(connect_msgs(m, c, pos), despawn_out_pred(e)) == 0,
        has_entity(connect_effect(m, c, pos), e) == has_entity(m, e),
{
    let p = despawn_out_pred(e);
    let msgs = connect_msgs(m, c, pos);
    let n = m.entities.len() as int;
    assert forall|i: int| 0 <= i < msgs.len() implies !#[trigger] p(msgs[i]) by {
        if i < n {
            assert(msgs[i] == catchup_msgs(m.entities, c)[i]);
        }
    }
    lemma_count_none(msgs, p);
    lemma_connect_keeps_entities(m, c, pos, e);
}

/// A disconnect emits one DespawnRect exactly when it retires a live
/// entity, and keeps every other entity's liveness.
proof fn lemma_step_despawn_disconnect(m: RegistryModel, c: u64, e: u64)
    requires
        wf(m),
        e < m.next_entity_id,
    ensures
        count_where(disconnect_msgs(m, c), despawn_out_pred(e)) <= 1,
        count_where(disconnect_msgs(m, c), despawn_out_pred(e)) == 1 ==> has_entity(m, e)
            && !has_entity(disconnect_effect(m, c), e),
        count_where(disconnect_msgs(m, c), despawn_out_pred(e)) == 0 ==> has_entity(
            disconnect_effect(m, c),
            e,
        ) == has_entity(m, e),
        !has_entity(m, e) ==> count_where(disconnect_msgs(m, c), despawn_out_pred(e)) == 0,
{
    let p = despawn_out_pred(e);
    let msgs = disconnect_msgs(m, c);
    let m2 = disconnect_effect(m, c);
    if has_player(m, c) && m.players[player_at(m, c)].entity is Some {
        let ep = m.players[player_at(m, c)].entity->Some_0;
        assert(entity_owned_by(m, ep, c));
        let jw = choose|j: int|
            0 <= j < m.entities.len() && (#[trigger] m.entities[j]).entity_id == ep
                && m.entities[j].owner == c;
        lemma_entity_at_is(m, ep, jw);
        let je = entity_at(m, ep);
        assert(m2.entities =~= m.entities.remove(je));
        assert(msgs.drop_first() =~= Seq::<Outbound>::empty());
        assert(count_where(msgs.drop_first(), p) == 0);
        if ep == e {
            assert(p(msgs[0]));
            assert(count_where(msgs, p) == 1);
            assert(has_entity(m, e));
            if has_entity(m2, e) {
                let j = choose|j: int|
                    0 <= j < m2.entities.len() && (#[trigger] m2.entities[j]).entity_id == e;
                let jo = if j < je {
                    j
                } else {
                    j + 1
                };
                assert(m2.entities[j] == m.entities[jo]);
                assert(jo != je);
                assert(m.entities[jo].entity_id != m.entities[je].entity_id);
                assert(false);
            }
        } else {
            assert(!p(msgs[0]));
            assert(count_where(msgs, p) == 0);
            if has_entity(m, e) {
                let j = choose|j: int|
                    0 <= j < m.entities.len() && (#[trigger] m.entities[j]).entity_id == e;
                assert(j != je);
                let jn = if j < je {
                    j
                } else {
                    j - 1
                };
                assert(m2.entities[jn] == m.entities[j]);
                assert(has_entity(m2, e));
            }
            if has_entity(m2, e) {
                let j = choose|j: int|
                    0 <= j < m2.entities.len() && (#[trigger] m2.entities[j]).entity_id == e;
                let jo = if j < je {
                    j
                } else {
                    j + 1
                };
                assert(m2.entities[j] == m.entities[jo]);
                assert(has_entity(m, e));
            }
        }
    } else {
        assert(msgs =~= Seq::<Outbound>::empty());
        assert(count_where(msgs, p) == 0);
        assert(m2.entities == m.entities);
    }
}

/// A tick emits no DespawnRect and keeps every entity's liveness.
proof fn lemma_step_despawn_tick(m: RegistryModel, step: int, e: u64)
    requires
        wf(m),
    ensures
        count_where(tick_msgs(m, step), despawn_out_pred(e)) == 0,
        has_entity(tick_effect(m, step), e) == has_entity(m, e),
{
    let p = despawn_out_pred(e);
    let msgs = tick_msgs(m, step);
    lemma_tick_msgs_shape(m, step, m.entities.len() as int);
    assert forall|i: int| 0 <= i < msgs.len() implies !#[trigger] p(msgs[i]) by {
        let k = choose|k: int|
            0 <= k < m.entities.len() && (#[trigger] msgs[i]) == (Outbound {
                dest: Dest::All,
                msg: ServerMessage::RectMove {
                    entity: m.entities[k].entity_id,
                    pos: moved_entity(m, m.entities[k], step).pos,
                },
            }) && displaced(player_dir(m, m.entities[k].owner), step);
    }
    lemma_count_none(msgs, p);
    lemma_tick_keeps_entities(m, step, e);
}

/// What one step may say about DespawnRect for a given entity: at most
/// one, only for a live entity, and exactly when the step retires it.
pub proof fn lemma_step_despawn(m: RegistryModel, ev: Event, e: u64)
    requires
        wf(m),
        event_ok(m, ev),
        e < m.next_entity_id,
    ensures
        count_where(step_msgs(m, ev), despawn_out_pred(e)) <= 1,
        count_where(step_msgs(m, ev), despawn_out_pred(e)) == 1 ==> has_entity(m, e)
            && !has_entity(step_state(m, ev), e),
        count_where(step_msgs(m, ev), despawn_out_pred(e)) == 0 ==> has_entity(
            step_state(m, ev),
            e,
        ) == has_entity(m, e),
        !has_entity(m, e) ==> count_where(step_msgs(m, ev), despawn_out_pred(e)) == 0,
{
    match ev {
        Event::Connect { client_id, pos } => {
            lemma_step_despawn_connect(m, client_id, pos, e);
        }
        Event::Disconnect { client_id } => {
            lemma_step_despawn_disconnect(m, client_id, e);
        }
        Event::DirectionMsg { client_id, direction } => {
            let msgs = step_msgs(m, ev);
            assert(msgs =~= Seq::<Outbound>::empty());
            assert(count_where(msgs, despawn_out_pred(e)) == 0);
            assert(direction_effect(m, client_id, direction).entities == m.entities);
        }
        Event::Tick { step } => {
            lemma_step_despawn_tick(m, step, e);
        }
    }
}

/// Over any admissible trace, DespawnRect for a given entity is broadcast
/// at most once, and never for an entity that is already gone.
pub proof fn lemma_despawn_at_most_once(m: RegistryModel, evs: Seq<Event>, e: u64)
    requires
        wf(m),
        trace_ok(m, evs),
        e < m.next_entity_id,
    ensures
        count_where(run_msgs(m, evs), despawn_out_pred(e)) <= 1,
        !has_entity(m, e) ==> count_where(run_msgs(m, evs), despawn_out_pred(e)) == 0,
    decreases evs.len(),
{
    let p = despawn_out_pred(e);
    if evs.len() == 0 {
        assert(count_where(run_msgs(m, evs), p) == 0);
    } else {
        let ev = evs[0];
        let m1 = step_state(m, ev);
        lemma_step_despawn(m, ev, e);
        lemma_step_preserves_wf(m, ev);
        lemma_despawn_at_most_once(m1, evs.drop_first(), e);
        lemma_count_concat(step_msgs(m, ev), run_msgs(m1, evs.drop_first()), p);
        if count_where(step_msgs(m, ev), p) == 1 {
            assert(!has_entity(m1, e));
        }
    }
}

/// No step broadcasts a SpawnRect for an entity identifier that was
/// already allocated: broadcast spawns carry only the freshly assigned id.
pub proof fn lemma_step_no_bcast_spawn(m: RegistryModel, ev: Event, e: u64)
    requires
        wf(m),
        event_ok(m, ev),
        e < m.next_entity_id,
    ensures
        count_where(step_msgs(m, ev), bcast_spawn_pred(e)) == 0,
{
    let p = bcast_spawn_pred(e);
    let msgs = step_msgs(m, ev);
    match ev {
        Event::Connect { client_id, pos } => {
            let n = m.entities.len() as int;
            assert forall|i: int| 0 <= i < msgs.len() implies !#[trigger] p(msgs[i]) by {
                if i < n {
                    assert(msgs[i] == catchup_msgs(m.entities, client_id)[i]);
                    assert(msgs[i].dest == Dest::To(client_id));
                }
            }
            lemma_count_none(msgs, p);
        }
        Event::Disconnect { client_id } => {
            assert forall|i: int| 0 <= i < msgs.len() implies !#[trigger] p(msgs[i]) by {}
            lemma_count_none(msgs, p);
        }
        Event::DirectionMsg { .. } => {
            assert(msgs =~= Seq::<Outbound>::empty());
            assert(count_where(msgs, p) == 0);
        }
        Event::Tick { step } => {
            lemma_tick_msgs_shape(m, step, m.entities.len() as int);
            assert forall|i: int| 0 <= i < msgs.len() implies !#[trigger] p(msgs[i]) by {
                let k = choose|k: int|
                    0 <= k < m.entities.len() && (#[trigger] msgs[i]) == (Outbound {
                        dest: Dest::All,
                        msg: ServerMessage::RectMove {
                            entity: m.entities[k].entity_id,
                            pos: moved_entity(m, m.entities[k], step).pos,
                        },
                    }) && displaced(player_dir(m, m.entities[k].owner), step);
            }
            lemma_count_none(msgs, p);
        }
    }
}

/// Over any admissible trace, no SpawnRect is broadcast for an entity
/// identifier that was allocated before the trace began.
pub proof fn lemma_no_bcast_spawn(m: RegistryModel, evs: Seq<Event>, e: u64)
    requires
        wf(m),
        trace_ok(m, evs),
        e < m.next_entity_id,
    ensures
        count_where(run_msgs(m, evs), bcast_spawn_pred(e)) == 0,
    decreases evs.len(),
{
    let p = bcast_spawn_pred(e);
    if evs.len() == 0 {
        assert(count_where(run_msgs(m, evs), p) == 0);
    } else {
        let ev = evs[0];
        let m1 = step_state(m, ev);
        lemma_step_no_bcast_spawn(m, ev, e);
        lemma_step_preserves_wf(m, ev);
        lemma_no_bcast_spawn(m1, evs.drop_first(), e);
        lemma_count_concat(step_msgs(m, ev), run_msgs(m1, evs.drop_first()), p);
    }
}

/// A connection that stays open is never delivered another SpawnRect for
/// an entity allocated before: the only unicast spawns go to a newly
/// connecting endpoint, and broadcast spawns carry only fresh ids.
pub proof fn lemma_no_spawn_delivered(m: RegistryModel, evs: Seq<Event>, c: u64, e: u64)
    requires
        wf(m),
        trace_ok(m, evs),
        e < m.next_entity_id,
        forall|k: int| 0 <= k < evs.len() ==> !is_connect_of(#[trigger] evs[k], c),
    ensures
        count_where(run_deliver(m, evs, c), spawn_of_pred(e)) == 0,
    decreases evs.len(),
{
    let p = spawn_of_pred(e);
    if evs.len() == 0 {
        assert(count_where(run_deliver(m, evs, c), p) == 0);
    } else {
        let ev = evs[0];
        let m1 = step_state(m, ev);
        let msgs = step_msgs(m, ev);
        assert forall|i: int| 0 <= i < msgs.len() implies (p((#[trigger] msgs[i]).msg)
            ==> !delivered_to(msgs[i], m1, c)) by {
            match ev {
                Event::Connect { client_id, pos } => {
                    let n = m.entities.len() as int;
                    assert(client_id != c);
                    if i < n {
                        assert(msgs[i] == catchup_msgs(m.entities, client_id)[i]);
                        assert(msgs[i].dest == Dest::To(client_id));
                    } else if i == n + 1 {
                        assert(!p(msgs[i].msg));
                    }
                }
                Event::Disconnect { .. } => {
                    if msgs.len() > 0 {
                        assert(!p(msgs[0].msg));
                    }
                }
                Event::DirectionMsg { .. } => {}
                Event::Tick { step } => {
                    lemma_tick_msgs_shape(m, step, m.entities.len() as int);
                    let k = choose|k: int|
                        0 <= k < m.entities.len() && (#[trigger] msgs[i]) == (Outbound {
                            dest: Dest::All,
                            msg: ServerMessage::RectMove {
                                entity: m.entities[k].entity_id,
                                pos: moved_entity(m, m.entities[k], step).pos,
                            },
                        }) && displaced(player_dir(m, m.entities[k].owner), step);
                    assert(!p(msgs[i].msg));
                }
            }
        }
        lemma_deliver_excluded(msgs, m1, c, p);
        lemma_step_preserves_wf(m, ev);
        assert forall|k: int| 0 <= k < evs.drop_first().len() implies !is_connect_of(
            #[trigger] evs.drop_first()[k],
            c,
        ) by {
            assert(evs.drop_first()[k] == evs[k + 1]);
        }
        lemma_no_spawn_delivered(m1, evs.drop_first(), c, e);
        lemma_count_concat(step_deliver(m, ev, c), run_deliver(m1, evs.drop_first(), c), p);
    }
}

// ---------------------------------------------------------------------
// Zero-suppression: an idle player's entity is never moved on the wire
// ---------------------------------------------------------------------

/// While a player's latched direction is Idle, a tick emits no RectMove
/// for that player's entity.
pub proof fn lemma_idle_no_move(m: RegistryModel, step: int, c: u64, e: u64)
    requires
        wf(m),
        has_player(m, c),
        player_dir(m, c) == Direction::Idle,
        m.players[player_at(m, c)].entity == Some(e),
    ensures
        count_where(tick_msgs(m, step), |o: Outbound| is_move_of(o.msg, e)) == 0,
{
    let n = m.entities.len() as int;
    lemma_tick_msgs_shape(m, step, n);
    let msgs = tick_msgs(m, step);
    assert(entity_owned_by(m, e, c));
    let je = choose|j: int|
        0 <= j < m.entities.len() && (#[trigger] m.entities[j]).entity_id == e && m.entities[j].owner
            == c;
    assert forall|j: int| 0 <= j < msgs.len() implies !is_move_of((#[trigger] msgs[j]).msg, e) by {
        let k = choose|k: int|
            0 <= k < n && (#[trigger] msgs[j]) == (Outbound {
                dest: Dest::All,
                msg: ServerMessage::RectMove {
                    entity: m.entities[k].entity_id,
                    pos: moved_entity(m, m.entities[k], step).pos,
                },
            }) && displaced(player_dir(m, m.entities[k].owner), step);
        if m.entities[k].entity_id == e {
            // k is e's index, so its owner is c, whose direction is Idle
            assert(k == je || m.entities[k].entity_id != m.entities[je].entity_id);
            assert(m.entities[k].owner == c);
            assert(!displaced(player_dir(m, c), step));
        }
    }
    lemma_count_none(msgs, |o: Outbound| is_move_of(o.msg, e));
    // count_where over the outbound sequence with the message predicate
    assert(count_where(tick_msgs(m, step), |o: Outbound| is_move_of(o.msg, e)) == 0);
}

// ---------------------------------------------------------------------
// A disconnect's despawn reaches every remaining connection
// ---------------------------------------------------------------------

/// Disconnecting a player with a linked entity delivers exactly one
/// DespawnRect for it to every other connection registered at the time.
pub proof fn lemma_despawn_reaches_remaining(m: RegistryModel, c: u64, c2: u64, e: u64)
    requires
        wf(m),
        has_player(m, c),
        m.players[player_at(m, c)].entity == Some(e),
        has_player(m, c2),
        c2 != c,
    ensures
        step_deliver(m, Event::Disconnect { client_id: c }, c2) == seq![
            ServerMessage::DespawnRect { entity: e },
        ],
{
    let msgs = disconnect_msgs(m, c);
    let post = disconnect_effect(m, c);
    assert(msgs =~= seq![
        Outbound { dest: Dest::All, msg: ServerMessage::DespawnRect { entity: e } },
    ]);
    // c2 survives the removal of c's player entry
    let i = player_at(m, c);
    let i2 = player_at(m, c2);
    lemma_player_at_is(m, c2, i2);
    assert(i2 != i);
    let i2n = if i2 < i {
        i2
    } else {
        i2 - 1
    };
    assert(post.players[i2n] == m.players[i2]);
    assert(has_player(post, c2));
    assert(delivered_to(msgs[0], post, c2));
    let d = deliver_msgs(msgs, post, c2);
    assert(msgs.drop_first() =~= Seq::<Outbound>::empty());
    assert(deliver_msgs(msgs.drop_first(), post, c2) =~= Seq::<ServerMessage>::empty());
    assert(d =~= seq![msgs[0].msg] + Seq::<ServerMessage>::empty());
    assert(d =~= seq![ServerMessage::DespawnRect { entity: e }]);
}

// ---------------------------------------------------------------------
// Spawn exactly once, despawn at most once and only afterwards
// ---------------------------------------------------------------------

/// Over the whole lifetime of an entity — from the connect that creates
/// it through any admissible continuation — its SpawnRect is broadcast
/// exactly once, and a DespawnRect for it is broadcast at most once,
/// never before the spawn (the connect step itself emits no despawn).
pub proof fn lemma_spawn_once_despawn_after(
    m: RegistryModel,
    c: u64,
    pos: Position,
    evs: Seq<Event>,
)
    requires
        wf(m),
        !has_player(m, c),
        m.next_entity_id < u64::MAX,
        trace_ok(connect_effect(m, c, pos), evs),
    ensures
        ({
            let e = m.next_entity_id;
            let first = step_msgs(m, Event::Connect { client_id: c, pos });
            let rest = run_msgs(connect_effect(m, c, pos), evs);
            &&& count_where(first + rest, bcast_spawn_pred(e)) == 1
            &&& count_where(first + rest, despawn_out_pred(e)) <= 1
            &&& count_where(first, despawn_out_pred(e)) == 0
        }),
{
    let e = m.next_entity_id;
    let ev = Event::Connect { client_id: c, pos };
    let first = step_msgs(m, ev);
    let m1 = connect_effect(m, c, pos);
    let rest = run_msgs(m1, evs);
    let ps = bcast_spawn_pred(e);
    let pd = despawn_out_pred(e);
    let n = m.entities.len() as int;
    // the connect step broadcasts the spawn exactly once, at its end
    assert(first == connect_msgs(m, c, pos));
    assert(first.len() == n + 2);
    assert(ps(first[n + 1]));
    assert forall|i: int| 0 <= i < first.len() && i != n + 1 implies !#[trigger] ps(first[i]) by {
        if i < n {
            assert(first[i] == catchup_msgs(m.entities, c)[i]);
            assert(first[i].dest == Dest::To(c));
        }
    }
    lemma_count_one(first, ps, n + 1);
    // afterwards the id is allocated, so it is never spawn-broadcast again
    lemma_connect_preserves_wf(m, c, pos);
    assert(e < m1.next_entity_id);
    lemma_no_bcast_spawn(m1, evs, e);
    lemma_count_concat(first, rest, ps);
    // the connect step emits no despawn, and afterwards at most one
    assert forall|i: int| 0 <= i < first.len() implies !#[trigger] pd(first[i]) by {
        if i < n {
            assert(first[i] == catchup_msgs(m.entities, c)[i]);
        }
    }
    lemma_count_none(first, pd);
    lemma_despawn_at_most_once(m1, evs, e);
    lemma_count_concat(first, rest, pd);
}

// ---------------------------------------------------------------------
// The snapshot catch-up law
// ---------------------------------------------------------------------

/// A connecting observer is delivered exactly one SpawnRect for each
/// entity live at the moment of its connection, strictly before any
/// RectMove or DespawnRect referencing that entity: the connect step
/// itself delivers the one spawn and no move or despawn, and as long as
/// the observer stays connected no later step delivers another spawn for
/// it, so every move or despawn it sees comes after that one spawn.
pub proof fn lemma_snapshot_exactly_once(
    m: RegistryModel,
    c: u64,
    pos: Position,
    evs: Seq<Event>,
    e: u64,
)
    requires
        wf(m),
        !has_player(m, c),
        m.next_entity_id < u64::MAX,
        has_entity(m, e),
        trace_ok(connect_effect(m, c, pos), evs),
        forall|k: int| 0 <= k < evs.len() ==> !is_connect_of(#[trigger] evs[k], c),
    ensures
        ({
            let d0 = step_deliver(m, Event::Connect { client_id: c, pos }, c);
            &&& count_where(d0, spawn_of_pred(e)) == 1
            &&& count_where(d0, move_or_despawn_pred(e)) == 0
            &&& count_where(
                run_deliver(connect_effect(m, c, pos), evs, c),
                spawn_of_pred(e),
            ) == 0
        }),
{
    let ev = Event::Connect { client_id: c, pos };
    let msgs = step_msgs(m, ev);
    let m1 = connect_effect(m, c, pos);
    let d0 = step_deliver(m, ev, c);
    let ps = spawn_of_pred(e);
    let pmd = move_or_despawn_pred(e);
    let n = m.entities.len() as int;
    // every message of the connect step reaches the new connection
    assert(msgs == connect_msgs(m, c, pos));
    assert(msgs.len() == n + 2);
    assert(has_player(m1, c)) by {
        assert(m1.players[m.players.len() as int].client_id == c);
    }
    assert forall|i: int| 0 <= i < msgs.len() implies delivered_to(
        #[trigger] msgs[i],
        m1,
        c,
    ) by {
        if i < n {
            assert(msgs[i] == catchup_msgs(m.entities, c)[i]);
            assert(msgs[i].dest == Dest::To(c));
        }
    }
    lemma_deliver_all(msgs, m1, c);
    assert(d0 == msgs.map_values(|o: Outbound| o.msg));
    assert(d0.len() == n + 2);
    // exactly one delivered SpawnRect for the live entity e
    let jw = choose|j: int| 0 <= j < m.entities.len() && (#[trigger] m.entities[j]).entity_id == e;
    lemma_entity_at_is(m, e, jw);
    let je = entity_at(m, e);
    assert(msgs[je] == catchup_msgs(m.entities, c)[je]);
    assert(ps(d0[je]));
    assert forall|i: int| 0 <= i < d0.len() && i != je implies !#[trigger] ps(d0[i]) by {
        assert(d0[i] == msgs[i].msg);
        if i < n {
            assert(msgs[i] == catchup_msgs(m.entities, c)[i]);
            assert(m.entities[i].entity_id != m.entities[je].entity_id);
        } else if i == n + 1 {
            assert(m.entities[je].entity_id < m.next_entity_id);
        }
    }
    lemma_count_one(d0, ps, je);
    // and no move or despawn at all in the connect step
    assert forall|i: int| 0 <= i < d0.len() implies !#[trigger] pmd(d0[i]) by {
        assert(d0[i] == msgs[i].msg);
        if i < n {
            assert(msgs[i] == catchup_msgs(m.entities, c)[i]);
        }
    }
    lemma_count_none(d0, pmd);
    // while the observer stays connected, no later spawn for e reaches it
    lemma_connect_preserves_wf(m, c, pos);
    assert(e < m1.next_entity_id);
    lemma_no_spawn_delivered(m1, evs, c, e);
}

/// The connecting observer also sees its own entity spawned exactly
/// once: the broadcast at the end of its connect step, and never again
/// while it stays connected.
pub proof fn lemma_own_spawn_exactly_once(m: RegistryModel, c: u64, pos: Position, evs: Seq<Event>)
    requires
        wf(m),
        !has_player(m, c),
        m.next_entity_id < u64::MAX,
        trace_ok(connect_effect(m, c, pos), evs),
        forall|k: int| 0 <= k < evs.len() ==> !is_connect_of(#[trigger] evs[k], c),
    ensures
        count_where(
            step_deliver(m, Event::Connect { client_id: c, pos }, c),
            spawn_of_pred(m.next_entity_id),
        ) == 1,
        count_where(
            run_deliver(connect_effect(m, c, pos), evs, c),
            spawn_of_pred(m.next_entity_id),
        ) == 0,
{
    let e = m.next_entity_id;
    let ev = Event::Connect { client_id: c, pos };
    let msgs = step_msgs(m, ev);
    let m1 = connect_effect(m, c, pos);
    let d0 = step_deliver(m, ev, c);
    let ps = spawn_of_pred(e);
    let n = m.entities.len() as int;
    assert(msgs == connect_msgs(m, c, pos));
    assert(has_player(m1, c)) by {
        assert(m1.players[m.players.len() as int].client_id == c);
    }
    assert forall|i: int| 0 <= i < msgs.len() implies delivered_to(
        #[trigger] msgs[i],
        m1,
        c,
    ) by {
        if i < n {
            assert(msgs[i] == catchup_msgs(m.entities, c)[i]);
            assert(msgs[i].dest == Dest::To(c));
        }
    }
    lemma_deliver_all(msgs, m1, c);
    assert(d0 == msgs.map_values(|o: Outbound| o.msg));
    assert(ps(d0[n + 1]));
    assert forall|i: int| 0 <= i < d0.len() && i != n + 1 implies !#[trigger] ps(d0[i]) by {
        assert(d0[i] == msgs[i].msg);
        if i < n {
            assert(msgs[i] == catchup_msgs(m.entities, c)[i]);
            assert(m.entities[i].entity_id < m.next_entity_id);
        }
    }
    lemma_count_one(d0, ps, n + 1);
    lemma_connect_preserves_wf(m, c, pos);
    lemma_no_spawn_delivered(m1, evs, c, e);
}

// ---------------------------------------------------------------------
// The snapshot replays faithfully into a fresh mirror
// ---------------------------------------------------------------------

/// The mirror after applying a stream of messages in arrival order.
pub open spec fn replay(mm: MirrorModel, msgs: Seq<ServerMessage>) -> MirrorModel
    decreases msgs.len(),
{
    if msgs.len() == 0 {
        mm
    } else {
        replay(apply_effect(mm, msgs[0]), msgs.drop_first())
    }
}

/// Whether every message of the stream applies without a
/// protocol-consistency violation.
pub open spec fn replay_ok(mm: MirrorModel, msgs: Seq<ServerMessage>) -> bool
    decreases msgs.len(),
{
    msgs.len() == 0 || (apply_ok(mm, msgs[0]) && replay_ok(apply_effect(mm, msgs[0]), msgs.drop_first()))
}

pub proof fn lemma_replay_concat(mm: MirrorModel, a: Seq<ServerMessage>, b: Seq<ServerMessage>)
    ensures
        replay(mm, a + b) == replay(replay(mm, a), b),
        replay_ok(mm, a + b) == (replay_ok(mm, a) && replay_ok(replay(mm, a), b)),
    decreases a.len(),
{
    if a.len() == 0 {
        assert(a + b =~= b);
    } else {
        assert((a + b)[0] == a[0]);
        assert((a + b).drop_first() =~= a.drop_first() + b);
        lemma_replay_concat(apply_effect(mm, a[0]), a.drop_first(), b);
    }
}

/// Replaying a list of spawns with fresh, pairwise-distinct entity
/// identifiers succeeds and appends exactly those entities.
proof fn lemma_replay_spawn_list(mm: MirrorModel, msgs: Seq<ServerMessage>, ents: Seq<EntityEntry>)
    requires
        mirror_wf(mm),
        msgs.len() == ents.len(),
        forall|i: int|
            0 <= i < msgs.len() ==> #[trigger] msgs[i] == (ServerMessage::SpawnRect {
                entity: ents[i].entity_id,
                pos: ents[i].pos,
            }),
        forall|i: int, j: int|
            #![trigger ents[i], ents[j]]
            0 <= i < j < ents.len() ==> ents[i].entity_id != ents[j].entity_id,
        forall|i: int| 0 <= i < ents.len() ==> !mirror_has(mm, (#[trigger] ents[i]).entity_id),
    ensures
        replay_ok(mm, msgs),
        mirror_wf(replay(mm, msgs)),
        replay(mm, msgs).own_id == mm.own_id,
        replay(mm, msgs).rects == mm.rects + ents.map(
            |i: int, e: EntityEntry| RectEntry { entity: e.entity_id, pos: e.pos },
        ),
    decreases msgs.len(),
{
    let to_rect = |i: int, e: EntityEntry| RectEntry { entity: e.entity_id, pos: e.pos };
    if msgs.len() == 0 {
        assert(replay(mm, msgs).rects =~= mm.rects + ents.map(to_rect));
    } else {
        let e0 = ents[0];
        assert(!mirror_has(mm, e0.entity_id));
        assert(apply_ok(mm, msgs[0]));
        let mm1 = apply_effect(mm, msgs[0]);
        assert(mm1.rects == mm.rects.push(RectEntry { entity: e0.entity_id, pos: e0.pos }));
        assert(mm1.own_id == mm.own_id);
        // the pushed entity is fresh, so the mirror stays well formed
        assert forall|i: int, j: int|
            #![trigger mm1.rects[i], mm1.rects[j]]
            0 <= i < j < mm1.rects.len() implies mm1.rects[i].entity != mm1.rects[j].entity by {
            if j < mm.rects.len() {
            } else {
                assert(mm1.rects[i] == mm.rects[i]);
                assert(!mirror_has(mm, e0.entity_id));
            }
        }
        let rest_m = msgs.drop_first();
        let rest_e = ents.drop_first();
        assert forall|i: int| 0 <= i < rest_m.len() implies #[trigger] rest_m[i]
            == (ServerMessage::SpawnRect {
            entity: rest_e[i].entity_id,
            pos: rest_e[i].pos,
        }) by {
            assert(rest_m[i] == msgs[i + 1]);
            assert(rest_e[i] == ents[i + 1]);
        }
        assert forall|i: int, j: int|
            #![trigger rest_e[i], rest_e[j]]
            0 <= i < j < rest_e.len() implies rest_e[i].entity_id != rest_e[j].entity_id by {
            assert(rest_e[i] == ents[i + 1]);
            assert(rest_e[j] == ents[j + 1]);
        }
        assert forall|i: int| 0 <= i < rest_e.len() implies !mirror_has(
            mm1,
            (#[trigger] rest_e[i]).entity_id,
        ) by {
            assert(rest_e[i] == ents[i + 1]);
            assert(!mirror_has(mm, ents[i + 1].entity_id));
            if mirror_has(mm1, ents[i + 1].entity_id) {
                let k = choose|k: int|
                    0 <= k < mm1.rects.len() && (#[trigger] mm1.rects[k]).entity == ents[i
                        + 1].entity_id;
                if k < mm.rects.len() {
                    assert(mirror_has(mm, ents[i + 1].entity_id));
                } else {
                    assert(ents[0].entity_id != ents[i + 1].entity_id);
                }
                assert(false);
            }
        }
        lemma_replay_spawn_list(mm1, rest_m, rest_e);
        assert(replay(mm, msgs).rects =~= mm.rects + ents.map(to_rect)) by {
            assert(replay(mm, msgs).rects == mm1.rects + rest_e.map(to_rect));
            assert forall|i: int| 0 <= i < rest_e.len() implies #[trigger] rest_e.map(to_rect)[i]
                == ents.map(to_rect)[i + 1] by {
                assert(rest_e[i] == ents[i + 1]);
            }
        }
    }
}

/// The catch-up snapshot is faithful: a connecting observer that replays
/// everything it is delivered into a fresh mirror meets no violation, and
/// ends up holding exactly the authority's live entities — the
/// pre-existing ones and its own — each at its canonical position.
pub proof fn lemma_snapshot_replay_faithful(m: RegistryModel, c: u64, pos: Position)
    requires
        wf(m),
        !has_player(m, c),
        m.next_entity_id < u64::MAX,
    ensures
        ({
            let d0 = step_deliver(m, Event::Connect { client_id: c, pos }, c);
            let mm = replay(empty_mirror(), d0);
            let m1 = connect_effect(m, c, pos);
            &&& replay_ok(empty_mirror(), d0)
            &&& mirror_wf(mm)
            &&& mm.own_id == Some(c)
            &&& mm.rects.len() == m1.entities.len()
            &&& forall|j: int|
                0 <= j < mm.rects.len() ==> (#[trigger] mm.rects[j]).entity
                    == m1.entities[j].entity_id && mm.rects[j].pos == m1.entities[j].pos
        }),
{
    let ev = Event::Connect { client_id: c, pos };
    let msgs = step_msgs(m, ev);
    let m1 = connect_effect(m, c, pos);
    let d0 = step_deliver(m, ev, c);
    let n = m.entities.len() as int;
    // everything of the connect step reaches the new connection
    assert(msgs == connect_msgs(m, c, pos));
    assert(has_player(m1, c)) by {
        assert(m1.players[m.players.len() as int].client_id == c);
    }
    assert forall|i: int| 0 <= i < msgs.len() implies delivered_to(
        #[trigger] msgs[i],
        m1,
        c,
    ) by {
        if i < n {
            assert(msgs[i] == catchup_msgs(m.entities, c)[i]);
            assert(msgs[i].dest == Dest::To(c));
        }
    }
    lemma_deliver_all(msgs, m1, c);
    assert(d0 == msgs.map_values(|o: Outbound| o.msg));
    assert(d0.len() == n + 2);
    // split the delivery into the catch-up part and the two tail messages
    let a = d0.take(n);
    let b = d0.skip(n);
    assert(d0 =~= a + b);
    assert forall|i: int| 0 <= i < a.len() implies #[trigger] a[i] == (ServerMessage::SpawnRect {
        entity: m.entities[i].entity_id,
        pos: m.entities[i].pos,
    }) by {
        assert(a[i] == d0[i]);
        assert(d0[i] == msgs[i].msg);
        assert(msgs[i] == catchup_msgs(m.entities, c)[i]);
    }
    assert forall|i: int| 0 <= i < m.entities.len() implies !mirror_has(
        empty_mirror(),
        (#[trigger] m.entities[i]).entity_id,
    ) by {}
    lemma_replay_spawn_list(empty_mirror(), a, m.entities);
    let mm_a = replay(empty_mirror(), a);
    let to_rect = |i: int, e: EntityEntry| RectEntry { entity: e.entity_id, pos: e.pos };
    assert(mm_a.rects =~= m.entities.map(to_rect));
    assert(mm_a.rects.len() == n);
    // the tail: InitClient, then the observer's own spawn
    assert(b.len() == 2);
    assert(b[0] == d0[n]);
    assert(d0[n] == msgs[n].msg);
    assert(b[0] == (ServerMessage::InitClient { client_id: c }));
    assert(b[1] == d0[n + 1]);
    assert(b[1] == (ServerMessage::SpawnRect { entity: m.next_entity_id, pos }));
    let mm_b0 = apply_effect(mm_a, b[0]);
    assert(apply_ok(mm_a, b[0]));
    assert(mm_b0.own_id == Some(c));
    assert(mm_b0.rects == mm_a.rects);
    // the authority's fresh id is in no pre-existing rect
    assert(!mirror_has(mm_b0, m.next_entity_id)) by {
        if mirror_has(mm_b0, m.next_entity_id) {
            let k = choose|k: int|
                0 <= k < mm_b0.rects.len() && (#[trigger] mm_b0.rects[k]).entity
                    == m.next_entity_id;
            assert(mm_b0.rects[k] == to_rect(k, m.entities[k]));
            assert(m.entities[k].entity_id < m.next_entity_id);
        }
    }
    assert(apply_ok(mm_b0, b[1]));
    let mm_b1 = apply_effect(mm_b0, b[1]);
    assert(mm_b1.rects == mm_a.rects.push(RectEntry { entity: m.next_entity_id, pos }));
    // stitch the two halves back together
    lemma_replay_concat(empty_mirror(), a, b);
    assert(b.drop_first() =~= seq![b[1]]);
    let tail = seq![b[1]];
    assert(tail[0] == b[1]);
    assert(tail.drop_first() =~= Seq::<ServerMessage>::empty());
    assert(replay(mm_a, b) == replay(mm_b0, tail));
    assert(replay(mm_b0, tail) == replay(mm_b1, tail.drop_first()));
    assert(replay(mm_b1, tail.drop_first()) == mm_b1);
    assert(replay_ok(mm_b1, tail.drop_first()));
    assert(replay_ok(mm_b0, tail));
    assert(replay_ok(mm_a, b));
    let mm = replay(empty_mirror(), d0);
    assert(mm == mm_b1);
    // the result is well formed and lists exactly the live entities
    assert forall|i: int, j: int|
        #![trigger mm.rects[i], mm.rects[j]]
        0 <= i < j < mm.rects.len() implies mm.rects[i].entity != mm.rects[j].entity by {
        if j < n {
            assert(mm.rects[i] == to_rect(i, m.entities[i]));
            assert(mm.rects[j] == to_rect(j, m.entities[j]));
        } else {
            assert(mm.rects[i] == to_rect(i, m.entities[i]));
            assert(m.entities[i].entity_id < m.next_entity_id);
        }
    }
    assert forall|j: int| 0 <= j < mm.rects.len() implies (#[trigger] mm.rects[j]).entity
        == m1.entities[j].entity_id && mm.rects[j].pos == m1.entities[j].pos by {
        if j < n {
            assert(mm.rects[j] == to_rect(j, m.entities[j]));
            assert(m1.entities[j] == m.entities[j]);
        }
    }
}

} // verus!
