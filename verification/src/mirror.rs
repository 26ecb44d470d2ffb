//! The remote mirror: one observer's local, derived copy of the
//! replicated entities, driven purely by the authority's messages
//! applied in arrival order.
//!
//! A RectMove or DespawnRect for an unmapped entity, or a duplicate
//! SpawnRect, is a protocol-consistency violation: the mirror reports it
//! loudly through its `Result` and leaves its state unchanged, instead of
//! silently corrupting it.

use vstd::prelude::*;

use crate::protocol::Position;
use crate::protocol::ServerMessage;

verus! {

/// One mirrored entity: the authority's identifier and the local copy of
/// its last known position.
#[derive(Clone, Copy, Debug, PartialEq, Eq)]
pub struct RectEntry {
    pub entity: u64,
    pub pos: Position,
}

/// Mathematical model of a mirror: its own connection identity, once
/// told, and the mirrored entities in spawn order.
#[verifier::ext_equal]
pub ghost struct MirrorModel {
    pub own_id: Option<u64>,
    pub rects: Seq<RectEntry>,
}

/// A protocol-consistency violation observed while applying a message.
#[derive(Clone, Copy, Debug, PartialEq, Eq)]
pub enum MirrorError {
    DuplicateSpawn { entity: u64 },
    UnknownEntity { entity: u64 },
}

pub open spec fn empty_mirror() -> MirrorModel {
    MirrorModel { own_id: Option::None, rects: Seq::empty() }
}

pub open spec fn mirror_has(m: MirrorModel, e: u64) -> bool {
    exists|i: int| 0 <= i < m.rects.len() && (#[trigger] m.rects[i]).entity == e
}

/// Index of the mirrored entity `e`; meaningful only under `mirror_wf`.
pub open spec fn rect_at(m: MirrorModel, e: u64) -> int {
    choose|i: int| 0 <= i < m.rects.len() && (#[trigger] m.rects[i]).entity == e
}

/// Mirror invariant: mirrored entity identifiers are unique.
pub open spec fn mirror_wf(m: MirrorModel) -> bool {
    forall|i: int, j: int|
        #![trigger m.rects[i], m.rects[j]]
        0 <= i < j < m.rects.len() ==> m.rects[i].entity != m.rects[j].entity
}

pub proof fn lemma_rect_at_is(m: MirrorModel, e: u64, i: int)
    requires
        mirror_wf(m),
        0 <= i < m.rects.len(),
        m.rects[i].entity == e,
    ensures
        mirror_has(m, e),
        rect_at(m, e) == i,
{
    assert(mirror_has(m, e));
    let k = rect_at(m, e);
    if k != i {
        assert(m.rects[k].entity != m.rects[i].entity);
    }
}

/// Whether applying `msg` to mirror `m` succeeds: a spawn must be fresh,
/// a move or despawn must name a mapped entity.
pub open spec fn apply_ok(m: MirrorModel, msg: ServerMessage) -> bool {
    match msg {
        ServerMessage::InitClient { .. } => true,
        ServerMessage::SpawnRect { entity, .. } => !mirror_has(m, entity),
        ServerMessage::RectMove { entity, .. } => mirror_has(m, entity),
        ServerMessage::DespawnRect { entity } => mirror_has(m, entity),
    }
}

/// The exact outcome of applying `msg` to mirror `m`: a duplicate spawn
/// and an unmapped move or despawn name the offending entity.
pub open spec fn apply_result(m: MirrorModel, msg: ServerMessage) -> Result<(), MirrorError> {
    match msg {
        ServerMessage::InitClient { .. } => Ok(()),
        ServerMessage::SpawnRect { entity, .. } => if !mirror_has(m, entity) {
            Ok(())
        } else {
            Err(MirrorError::DuplicateSpawn { entity })
        },
        ServerMessage::RectMove { entity, .. } => if mirror_has(m, entity) {
            Ok(())
        } else {
            Err(MirrorError::UnknownEntity { entity })
        },
        ServerMessage::DespawnRect { entity } => if mirror_has(m, entity) {
            Ok(())
        } else {
            Err(MirrorError::UnknownEntity { entity })
        },
    }
}

/// The mirror after applying `msg`: unchanged when `apply_ok` fails.
pub open spec fn apply_effect(m: MirrorModel, msg: ServerMessage) -> MirrorModel {
    match msg {
        ServerMessage::InitClient { client_id } => MirrorModel {
            own_id: Some(client_id),
            rects: m.rects,
        },
        ServerMessage::SpawnRect { entity, pos } => if !mirror_has(m, entity) {
            MirrorModel { own_id: m.own_id, rects: m.rects.push(RectEntry { entity, pos }) }
        } else {
            m
        },
        ServerMessage::RectMove { entity, pos } => if mirror_has(m, entity) {
            MirrorModel {
                own_id: m.own_id,
                rects: m.rects.update(rect_at(m, entity), RectEntry { entity, pos }),
            }
        } else {
            m
        },
        ServerMessage::DespawnRect { entity } => if mirror_has(m, entity) {
            MirrorModel { own_id: m.own_id, rects: m.rects.remove(rect_at(m, entity)) }
        } else {
            m
        },
    }
}

pub proof fn lemma_apply_preserves_wf(m: MirrorModel, msg: ServerMessage)
    requires
        mirror_wf(m),
    ensures
        mirror_wf(apply_effect(m, msg)),
{
    let m2 = apply_effect(m, msg);
    match msg {
        ServerMessage::InitClient { .. } => {}
        ServerMessage::SpawnRect { entity, pos } => {
            if !mirror_has(m, entity) {
                assert forall|i: int, j: int|
                    #![trigger m2.rects[i], m2.rects[j]]
                    0 <= i < j < m2.rects.len() implies m2.rects[i].entity
                    != m2.rects[j].entity by {
                    if j < m.rects.len() {
                    } else {
                        assert(m2.rects[i] == m.rects[i]);
                    }
                }
            }
        }
        ServerMessage::RectMove { entity, pos } => {
            if mirror_has(m, entity) {
                let k = rect_at(m, entity);
                assert(m.rects[k].entity == entity);
                assert forall|i: int, j: int|
                    #![trigger m2.rects[i], m2.rects[j]]
                    0 <= i < j < m2.rects.len() implies m2.rects[i].entity
                    != m2.rects[j].entity by {
                    assert(m2.rects[i].entity == m.rects[i].entity);
                    assert(m2.rects[j].entity == m.rects[j].entity);
                }
            }
        }
        ServerMessage::DespawnRect { entity } => {
            if mirror_has(m, entity) {
                let k = rect_at(m, entity);
                assert forall|i: int, j: int|
                    #![trigger m2.rects[i], m2.rects[j]]
                    0 <= i < j < m2.rects.len() implies m2.rects[i].entity
                    != m2.rects[j].entity by {
                    let io = if i < k {
                        i
                    } else {
                        i + 1
                    };
                    let jo = if j < k {
                        j
                    } else {
                        j + 1
                    };
                    assert(m2.rects[i] == m.rects[io]);
                    assert(m2.rects[j] == m.rects[jo]);
                }
            }
        }
    }
}

/// Applying the same RectMove twice leaves the mirror exactly as applying
/// it once: the position is overwritten, not accumulated.
pub proof fn lemma_rect_move_idempotent(m: MirrorModel, entity: u64, pos: Position)
    requires
        mirror_wf(m),
    ensures
        apply_effect(
            apply_effect(m, ServerMessage::RectMove { entity, pos }),
            ServerMessage::RectMove { entity, pos },
        ) == apply_effect(m, ServerMessage::RectMove { entity, pos }),
{
    let msg = ServerMessage::RectMove { entity, pos };
    let m1 = apply_effect(m, msg);
    if mirror_has(m, entity) {
        let k = rect_at(m, entity);
        lemma_apply_preserves_wf(m, msg);
        assert(m1.rects[k].entity == entity);
        lemma_rect_at_is(m1, entity, k);
        assert(mirror_has(m1, entity));
        let m2 = apply_effect(m1, msg);
        assert(m2.rects =~= m1.rects);
        assert(m2 =~= m1);
    } else {
        assert(!mirror_has(m1, entity));
    }
}

/// One observer's mirror of the replicated entities.
pub struct Mirror {
    own_id: Option<u64>,
    rects: Vec<RectEntry>,
}

impl View for Mirror {
    type V = MirrorModel;

    closed spec fn view(&self) -> MirrorModel {
        MirrorModel { own_id: self.own_id, rects: self.rects@ }
    }
}

impl Default for Mirror {
    fn default() -> (r: Mirror)
        ensures
            mirror_wf(r@),
            r@ == empty_mirror(),
    {
        Mirror::new()
    }
}

impl Mirror {
    /// A fresh mirror: no identity yet, nothing mapped.
    pub fn new() -> (r: Mirror)
        ensures
            mirror_wf(r@),
            r@ == empty_mirror(),
    {
        let r = Mirror { own_id: Option::None, rects: Vec::new() };
        proof {
            assert(r@ =~= empty_mirror());
        }
        r
    }

    fn rect_index(&self, entity: u64) -> (r: Option<usize>)
        ensures
            match r {
                Some(i) => i < self@.rects.len() && self@.rects[i as int].entity == entity,
                None => !mirror_has(self@, entity),
            },
    {
        let mut i: usize = 0;
        while i < self.rects.len()
            invariant
                i <= self@.rects.len(),
                forall|j: int| 0 <= j < i ==> (#[trigger] self@.rects[j]).entity != entity,
            decreases self@.rects.len() - i,
        {
            if self.rects[i].entity == entity {
                return Some(i);
            }
            i += 1;
        }
        None
    }

    /// Apply one authority message in arrival order. Reports a duplicate
    /// spawn or an unmapped move/despawn as the violation it is, leaving
    /// the mirror unchanged.
    pub fn apply(&mut self, msg: ServerMessage) -> (r: Result<(), MirrorError>)
        requires
            mirror_wf(old(self)@),
        ensures
            mirror_wf(final(self)@),
            final(self)@ == apply_effect(old(self)@, msg),
            r is Ok <==> apply_ok(old(self)@, msg),
            r == apply_result(old(self)@, msg),
    {
        let ghost m0 = self@;
        let res: Result<(), MirrorError> = match msg {
            ServerMessage::InitClient { client_id } => {
                self.own_id = Some(client_id);
                Ok(())
            }
            ServerMessage::SpawnRect { entity, pos } => {
                match self.rect_index(entity) {
                    Option::Some(i) => {
                        proof {
                            lemma_rect_at_is(m0, entity, i as int);
                        }
                        Err(MirrorError::DuplicateSpawn { entity })
                    }
                    Option::None => {
                        self.rects.push(RectEntry { entity, pos });
                        Ok(())
                    }
                }
            }
            ServerMessage::RectMove { entity, pos } => {
                match self.rect_index(entity) {
                    Option::Some(i) => {
                        proof {
                            lemma_rect_at_is(m0, entity, i as int);
                        }
                        self.rects.set(i, RectEntry { entity, pos });
                        Ok(())
                    }
                    Option::None => Err(MirrorError::UnknownEntity { entity }),
                }
            }
            ServerMessage::DespawnRect { entity } => {
                match self.rect_index(entity) {
                    Option::Some(i) => {
                        proof {
                            lemma_rect_at_is(m0, entity, i as int);
                        }
                        self.rects.remove(i);
                        Ok(())
                    }
                    Option::None => Err(MirrorError::UnknownEntity { entity }),
                }
            }
        };
        proof {
            assert(self@ =~= apply_effect(m0, msg));
            lemma_apply_preserves_wf(m0, msg);
        }
        res
    }

    /// The identity the authority assigned this observer, if told yet.
    pub fn own_id(&self) -> (r: Option<u64>)
        ensures
            r == self@.own_id,
    {
        self.own_id
    }

    /// How many entities are currently mirrored.
    pub fn rect_count(&self) -> (n: usize)
        ensures
            n == self@.rects.len(),
    {
        self.rects.len()
    }

    /// The mirrored position of `entity`, if it is mapped.
    pub fn position_of(&self, entity: u64) -> (r: Option<Position>)
        requires
            mirror_wf(self@),
        ensures
            match r {
                Some(p) => mirror_has(self@, entity) && p == self@.rects[rect_at(
                    self@,
                    entity,
                )].pos,
                None => !mirror_has(self@, entity),
            },
    {
        match self.rect_index(entity) {
            Option::Some(i) => {
                proof {
                    lemma_rect_at_is(self@, entity, i as int);
                }
                Some(self.rects[i].pos)
            }
            Option::None => Option::None,
        }
    }
}

} // verus!
