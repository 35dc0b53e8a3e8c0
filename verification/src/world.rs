//! The `World`: storage and retrieval of entities and their components.
//!
//! A world is conceptually a mapping from (component kind, entity) to a
//! component value, plus the set of live entities. Component kinds are keys of
//! type `u64`; all values stored in one world share the value type `C` (a user
//! picks one type, often an enum over their component kinds). Iteration order
//! within a kind is the insertion order of entities.

use vstd::prelude::*;

verus! {

/// An entity: an opaque identifier, densely and monotonically assigned by a
/// `World`. Equality and hashing go by the identifier.
#[derive(Clone, Copy, PartialEq, Eq, Structural, Hash, Debug)]
pub struct Entity {
    pub id: u64,
}

/// One stored component: a value of kind `kind` attached to `entity`.
pub struct Slot<C> {
    pub kind: u64,
    pub entity: Entity,
    pub value: C,
}

/// The ways a `World` operation can fail.
#[derive(Clone, Copy, PartialEq, Eq, Structural, Debug)]
pub enum WorldError {
    /// The entity is not live in this world.
    EntityNotLive,
    /// Every identifier has been handed out already.
    IdsExhausted,
}

impl WorldError {
    /// A one-line description, for error reporting by callers.
    pub fn message(&self) -> (r: String)
        ensures
            r@.len() > 0,
    {
        let r = match self {
            WorldError::EntityNotLive => String::new().concat("entity is not live in this world"),
            WorldError::IdsExhausted => String::new().concat("entity identifiers are exhausted"),
        };
        proof {
            reveal_strlit("entity is not live in this world");
            reveal_strlit("entity identifiers are exhausted");
        }
        r
    }
}

/// Does `row` hold a component of `kind` for `e`?
pub open spec fn row_matches<C>(row: Slot<C>, kind: u64, e: Entity) -> bool {
    row.kind == kind && row.entity == e
}

/// Is some component of `kind` attached to `e` in `rows`?
pub open spec fn has_row<C>(rows: Seq<Slot<C>>, kind: u64, e: Entity) -> bool {
    exists|i: int| 0 <= i < rows.len() && row_matches(#[trigger] rows[i], kind, e)
}

/// At most one component of a given kind per entity.
pub open spec fn rows_unique<C>(rows: Seq<Slot<C>>) -> bool {
    forall|i: int, j: int| #![trigger rows[i], rows[j]]
        0 <= i < j < rows.len() ==> !row_matches(rows[i], rows[j].kind, rows[j].entity)
}

/// The position of the component of `kind` on `e` within `rows` (meaningful
/// when `has_row` holds).
pub open spec fn row_index_in<C>(rows: Seq<Slot<C>>, kind: u64, e: Entity) -> int {
    choose|i: int| 0 <= i < rows.len() && row_matches(#[trigger] rows[i], kind, e)
}

/// The entities holding a component of `kind`, in insertion order.
pub open spec fn entities_in<C>(rows: Seq<Slot<C>>, kind: u64) -> Seq<Entity>
    decreases rows.len(),
{
    if rows.len() == 0 {
        Seq::empty()
    } else if rows.last().kind == kind {
        entities_in(rows.drop_last(), kind).push(rows.last().entity)
    } else {
        entities_in(rows.drop_last(), kind)
    }
}

/// How often `e` occurs in `s`.
pub open spec fn count_entity(s: Seq<Entity>, e: Entity) -> nat
    decreases s.len(),
{
    if s.len() == 0 {
        0
    } else {
        count_entity(s.drop_last(), e) + if s.last() == e { 1nat } else { 0nat }
    }
}

/// Under uniqueness of (kind, entity) pairs, a kind's entity sequence lists an
/// entity exactly once when it holds the kind, and not at all otherwise.
proof fn lemma_entities_count<C>(rows: Seq<Slot<C>>, kind: u64, e: Entity)
    requires
        rows_unique(rows),
    ensures
        count_entity(entities_in(rows, kind), e) == if has_row(rows, kind, e) {
            1nat
        } else {
            0nat
        },
        entities_in(rows, kind).contains(e) == has_row(rows, kind, e),
    decreases rows.len(),
{
    if rows.len() == 0 {
        assert(!has_row(rows, kind, e));
        assert(!entities_in(rows, kind).contains(e));
    } else {
        let rest = rows.drop_last();
        let last = rows.last();
        assert(forall|i: int| 0 <= i < rest.len() ==> rest[i] == rows[i]);
        lemma_entities_count(rest, kind, e);
        if row_matches(last, kind, e) {
            assert(has_row(rows, kind, e));
            // no earlier row matches the same key, by uniqueness
            assert(!has_row(rest, kind, e)) by {
                if has_row(rest, kind, e) {
                    let i = choose|i: int|
                        0 <= i < rest.len() && row_matches(#[trigger] rest[i], kind, e);
                    assert(rows[i] == rest[i]);
                    assert(!row_matches(rows[i], rows[rows.len() - 1].kind, rows[rows.len() - 1].entity));
                }
            }
            let ents = entities_in(rest, kind).push(e);
            assert(entities_in(rows, kind) == ents);
            assert(ents.drop_last() =~= entities_in(rest, kind));
            assert(ents.contains(e)) by {
                assert(ents[ents.len() - 1] == e);
            }
        } else if last.kind == kind {
            let ents = entities_in(rest, kind).push(last.entity);
            assert(entities_in(rows, kind) == ents);
            assert(ents.drop_last() =~= entities_in(rest, kind));
            assert(ents.last() != e);
            assert(has_row(rows, kind, e) == has_row(rest, kind, e)) by {
                if has_row(rows, kind, e) {
                    let i = choose|i: int|
                        0 <= i < rows.len() && row_matches(#[trigger] rows[i], kind, e);
                    assert(i != rows.len() - 1);
                    assert(rest[i] == rows[i]);
                    assert(has_row(rest, kind, e));
                }
                if has_row(rest, kind, e) {
                    let i = choose|i: int|
                        0 <= i < rest.len() && row_matches(#[trigger] rest[i], kind, e);
                    assert(rows[i] == rest[i]);
                }
            }
            assert(ents.contains(e) == entities_in(rest, kind).contains(e)) by {
                if ents.contains(e) {
                    let i = choose|i: int| 0 <= i < ents.len() && ents[i] == e;
                    assert(i != ents.len() - 1);
                    assert(entities_in(rest, kind)[i] == e);
                }
                if entities_in(rest, kind).contains(e) {
                    let i = choose|i: int|
                        0 <= i < entities_in(rest, kind).len() && entities_in(rest, kind)[i] == e;
                    assert(ents[i] == e);
                }
            }
        } else {
            assert(entities_in(rows, kind) == entities_in(rest, kind));
            assert(has_row(rows, kind, e) == has_row(rest, kind, e)) by {
                if has_row(rows, kind, e) {
                    let i = choose|i: int|
                        0 <= i < rows.len() && row_matches(#[trigger] rows[i], kind, e);
                    assert(i != rows.len() - 1);
                    assert(rest[i] == rows[i]);
                    assert(has_row(rest, kind, e));
                }
                if has_row(rest, kind, e) {
                    let i = choose|i: int|
                        0 <= i < rest.len() && row_matches(#[trigger] rest[i], kind, e);
                    assert(rows[i] == rest[i]);
                }
            }
        }
    }
}

/// Appending one row extends exactly its kind's entity sequence.
proof fn lemma_entities_in_push<C>(rows: Seq<Slot<C>>, s: Slot<C>)
    ensures
        forall|k: u64|
            entities_in(#[trigger] rows.push(s), k) == if s.kind == k {
                entities_in(rows, k).push(s.entity)
            } else {
                entities_in(rows, k)
            },
{
    assert forall|k: u64|
        entities_in(#[trigger] rows.push(s), k) == if s.kind == k {
            entities_in(rows, k).push(s.entity)
        } else {
            entities_in(rows, k)
        } by {
        let ext = rows.push(s);
        assert(ext.last() == s);
        assert(ext.drop_last() =~= rows);
    }
}

/// Replacing a row by one with the same key leaves every kind's entity
/// sequence unchanged.
proof fn lemma_entities_in_update<C>(rows: Seq<Slot<C>>, i: int, s: Slot<C>)
    requires
        0 <= i < rows.len(),
        s.kind == rows[i].kind,
        s.entity == rows[i].entity,
    ensures
        forall|k: u64| entities_in(#[trigger] rows.update(i, s), k) == entities_in(rows, k),
    decreases rows.len(),
{
    let upd = rows.update(i, s);
    assert forall|k: u64| entities_in(#[trigger] rows.update(i, s), k) == entities_in(rows, k) by {
        if i == rows.len() - 1 {
            assert(upd.last() == s);
            assert(upd.drop_last() =~= rows.drop_last());
        } else {
            assert(upd.last() == rows.last());
            assert(upd.drop_last() =~= rows.drop_last().update(i, s));
            assert(rows.drop_last()[i] == rows[i]);
            lemma_entities_in_update(rows.drop_last(), i, s);
            assert(entities_in(rows.drop_last().update(i, s), k) == entities_in(
                rows.drop_last(),
                k,
            ));
        }
    }
}

/// Under uniqueness, the chosen index of a key is the one matching index.
proof fn lemma_row_index_unique<C>(rows: Seq<Slot<C>>, kind: u64, e: Entity, i: int)
    requires
        rows_unique(rows),
        0 <= i < rows.len(),
        row_matches(rows[i], kind, e),
    ensures
        row_index_in(rows, kind, e) == i,
{
    assert(has_row(rows, kind, e));
    let j = row_index_in(rows, kind, e);
    assert(0 <= j < rows.len() && row_matches(rows[j], kind, e));
    if j < i {
        assert(!row_matches(rows[j], rows[i].kind, rows[i].entity));
    } else if i < j {
        assert(!row_matches(rows[i], rows[j].kind, rows[j].entity));
    }
}

/// The container of all entities and their components.
pub struct World<C> {
    next_id: u64,
    slots: Vec<Slot<C>>,
}

impl<C> World<C> {
    /// Every stored entity is live, and each (kind, entity) pair occurs at
    /// most once.
    #[verifier::type_invariant]
    pub closed spec fn wf(self) -> bool {
        &&& forall|i: int|
            0 <= i < self.slots@.len() ==> (#[trigger] self.slots@[i]).entity.id < self.next_id
        &&& rows_unique(self.slots@)
    }

    /// The stored components, in insertion order: the world's model.
    pub closed spec fn rows(self) -> Seq<Slot<C>> {
        self.slots@
    }

    /// The identifier the next `spawn` will hand out.
    pub closed spec fn next_entity_id(self) -> u64 {
        self.next_id
    }

    /// An entity is live once `spawn` has returned it; none is ever destroyed.
    pub open spec fn live(self, e: Entity) -> bool {
        e.id < self.next_entity_id()
    }

    /// Does `e` currently hold a component of `kind`?
    pub open spec fn has(self, kind: u64, e: Entity) -> bool {
        has_row(self.rows(), kind, e)
    }

    /// The position of the component of `kind` on `e` (meaningful when `has`
    /// holds).
    pub open spec fn row_index(self, kind: u64, e: Entity) -> int {
        row_index_in(self.rows(), kind, e)
    }

    /// The component value of `kind` on `e` (meaningful when `has` holds).
    pub open spec fn value_of(self, kind: u64, e: Entity) -> C {
        self.rows()[self.row_index(kind, e)].value
    }

    /// The entities holding `kind`, in insertion order: what `query` returns.
    pub open spec fn entities_of(self, kind: u64) -> Seq<Entity> {
        entities_in(self.rows(), kind)
    }

    /// An empty world: no entities, no components.
    pub fn new() -> (w: World<C>)
        ensures
            w.rows() == Seq::<Slot<C>>::empty(),
            w.next_entity_id() == 0,
            forall|kind: u64| #[trigger] w.entities_of(kind) == Seq::<Entity>::empty(),
            forall|kind: u64, e: Entity| !(#[trigger] w.has(kind, e)),
            forall|e: Entity| !(#[trigger] w.live(e)),
    {
        let w = World { next_id: 0u64, slots: Vec::new() };
        proof {
            assert(w.slots@.len() == 0);
        }
        w
    }

    /// Is `e` live in this world?
    pub fn is_live(&self, e: Entity) -> (r: bool)
        ensures
            r == self.live(e),
    {
        e.id < self.next_id
    }

    /// Allocates a fresh entity and attaches `value` under `kind`. The new
    /// entity becomes visible to all subsequent queries. Fails exactly on
    /// identifier exhaustion.
    pub fn spawn(&mut self, kind: u64, value: C) -> (r: Result<Entity, WorldError>)
        ensures
            match r {
                Ok(e) => {
                    &&& old(self).next_entity_id() < u64::MAX
                    &&& e.id == old(self).next_entity_id()
                    &&& !old(self).live(e)
                    &&& final(self).live(e)
                    &&& final(self).next_entity_id() == old(self).next_entity_id() + 1
                    &&& final(self).rows() == old(self).rows().push(
                        (Slot { kind, entity: e, value }),
                    )
                    &&& final(self).entities_of(kind) == old(self).entities_of(kind).push(e)
                    &&& forall|k2: u64|
                        k2 != kind ==> #[trigger] final(self).entities_of(k2) == old(self).entities_of(k2)
                    &&& final(self).has(kind, e)
                    &&& final(self).value_of(kind, e) == value
                    &&& count_entity(final(self).entities_of(kind), e) == 1
                    &&& forall|k2: u64, e2: Entity|
                        !(k2 == kind && e2 == e) ==> #[trigger] final(self).has(k2, e2) == old(self).has(k2, e2)
                    &&& forall|k2: u64, e2: Entity|
                        old(self).has(k2, e2) && !(k2 == kind && e2 == e) ==> #[trigger] final(self).value_of(k2, e2) == old(self).value_of(k2, e2)
                    &&& forall|e2: Entity| old(self).live(e2) ==> #[trigger] final(self).live(e2)
                },
                Err(err) => {
                    &&& err == WorldError::IdsExhausted
                    &&& old(self).next_entity_id() == u64::MAX
                    &&& *final(self) == *old(self)
                },
            },
    {
        proof {
            use_type_invariant(&*self);
        }
        if self.next_id == u64::MAX {
            return Err(WorldError::IdsExhausted);
        }
        let e = Entity { id: self.next_id };
        let ghost srow = (Slot { kind, entity: e, value });
        self.next_id = self.next_id + 1;
        let mut taken: Vec<Slot<C>> = Vec::new();
        core::mem::swap(&mut taken, &mut self.slots);
        taken.push(Slot { kind, entity: e, value });
        proof {
            assert forall|i: int, j: int| #![trigger taken@[i], taken@[j]]
                0 <= i < j < taken@.len() implies !row_matches(
                taken@[i],
                taken@[j].kind,
                taken@[j].entity,
            ) by {
                if j == taken@.len() - 1 {
                    assert(taken@[i] == old(self).rows()[i]);
                    assert(taken@[i].entity.id < e.id);
                }
            }
        }
        core::mem::swap(&mut taken, &mut self.slots);
        proof {
            use_type_invariant(&*self);
            assert(self.slots@ == old(self).rows().push(srow));
            lemma_entities_in_push(old(self).rows(), srow);
            lemma_row_index_unique(self.rows(), kind, e, self.rows().len() - 1);
            lemma_entities_count(self.rows(), kind, e);
            assert forall|k2: u64, e2: Entity| !(k2 == kind && e2 == e) implies #[trigger] self.has(
                k2,
                e2,
            ) == old(self).has(k2, e2) by {
                if old(self).has(k2, e2) {
                    let j = choose|j: int|
                        0 <= j < old(self).rows().len() && row_matches(
                            #[trigger] old(self).rows()[j],
                            k2,
                            e2,
                        );
                    assert(self.rows()[j] == old(self).rows()[j]);
                    assert(self.has(k2, e2));
                }
                if self.has(k2, e2) {
                    let j = choose|j: int|
                        0 <= j < self.rows().len() && row_matches(#[trigger] self.rows()[j], k2, e2);
                    assert(j != self.rows().len() - 1);
                    assert(old(self).rows()[j] == self.rows()[j]);
                    assert(old(self).has(k2, e2));
                }
            }
            assert forall|k2: u64, e2: Entity|
                old(self).has(k2, e2) && !(k2 == kind && e2 == e) implies #[trigger] self.value_of(
                k2,
                e2,
            ) == old(self).value_of(k2, e2) by {
                let j = row_index_in(old(self).rows(), k2, e2);
                assert(0 <= j < old(self).rows().len() && row_matches(old(self).rows()[j], k2, e2));
                lemma_row_index_unique(old(self).rows(), k2, e2, j);
                assert(self.rows()[j] == old(self).rows()[j]);
                lemma_row_index_unique(self.rows(), k2, e2, j);
            }
        }
        Ok(e)
    }

    /// Finds the stored position of the component of `kind` on `e`.
    fn find(&self, kind: u64, e: Entity) -> (r: Option<usize>)
        ensures
            match r {
                Some(i) => {
                    &&& self.has(kind, e)
                    &&& (i as int) < self.rows().len()
                    &&& row_matches(self.rows()[i as int], kind, e)
                    &&& i as int == self.row_index(kind, e)
                },
                None => !self.has(kind, e),
            },
    {
        proof {
            use_type_invariant(&*self);
        }
        let n = self.slots.len();
        let mut i: usize = 0;
        while i < n
            invariant
                n == self.slots@.len(),
                i <= n,
                rows_unique(self.slots@),
                forall|j: int| 0 <= j < i as int ==> !row_matches(#[trigger] self.slots@[j], kind, e),
            decreases n - i,
        {
            if self.slots[i].kind == kind && self.slots[i].entity.id == e.id {
                proof {
                    assert(row_matches(self.rows()[i as int], kind, e));
                    lemma_row_index_unique(self.rows(), kind, e, i as int);
                }
                return Some(i);
            }
            i = i + 1;
        }
        None
    }

    /// Adds or replaces the component of `kind` on the live entity `e`. A
    /// replacement keeps the entity's position in its kind's iteration order.
    /// Fails exactly when `e` is not live.
    pub fn attach(&mut self, e: Entity, kind: u64, value: C) -> (r: Result<(), WorldError>)
        ensures
            match r {
                Ok(()) => {
                    &&& old(self).live(e)
                    &&& final(self).next_entity_id() == old(self).next_entity_id()
                    &&& final(self).has(kind, e)
                    &&& final(self).value_of(kind, e) == value
                    &&& (old(self).has(kind, e) ==> final(self).rows() == old(self).rows().update(
                        old(self).row_index(kind, e),
                        (Slot { kind, entity: e, value }),
                    ) && final(self).entities_of(kind) == old(self).entities_of(kind))
                    &&& (!old(self).has(kind, e) ==> final(self).rows() == old(self).rows().push(
                        (Slot { kind, entity: e, value }),
                    ) && final(self).entities_of(kind) == old(self).entities_of(kind).push(e))
                    &&& forall|k2: u64|
                        k2 != kind ==> #[trigger] final(self).entities_of(k2) == old(self).entities_of(k2)
                    &&& forall|k2: u64, e2: Entity|
                        !(k2 == kind && e2 == e) ==> #[trigger] final(self).has(k2, e2) == old(self).has(k2, e2)
                    &&& forall|k2: u64, e2: Entity|
                        old(self).has(k2, e2) && !(k2 == kind && e2 == e) ==> #[trigger] final(self).value_of(k2, e2) == old(self).value_of(k2, e2)
                    &&& forall|e2: Entity| #[trigger] final(self).live(e2) == old(self).live(e2)
                },
                Err(err) => {
                    &&& err == WorldError::EntityNotLive
                    &&& !old(self).live(e)
                    &&& *final(self) == *old(self)
                },
            },
    {
        proof {
            use_type_invariant(&*self);
        }
        if !(e.id < self.next_id) {
            return Err(WorldError::EntityNotLive);
        }
        let ghost srow = (Slot { kind, entity: e, value });
        let found = self.find(kind, e);
        let mut taken: Vec<Slot<C>> = Vec::new();
        core::mem::swap(&mut taken, &mut self.slots);
        match found {
            Some(i) => {
                taken[i] = Slot { kind, entity: e, value };
                proof {
                    assert(taken@ == old(self).rows().update(i as int, srow));
                    assert forall|a: int, b: int| #![trigger taken@[a], taken@[b]]
                        0 <= a < b < taken@.len() implies !row_matches(
                        taken@[a],
                        taken@[b].kind,
                        taken@[b].entity,
                    ) by {
                        assert(taken@[a].kind == old(self).rows()[a].kind);
                        assert(taken@[a].entity == old(self).rows()[a].entity);
                        assert(taken@[b].kind == old(self).rows()[b].kind);
                        assert(taken@[b].entity == old(self).rows()[b].entity);
                        assert(!row_matches(
                            old(self).rows()[a],
                            old(self).rows()[b].kind,
                            old(self).rows()[b].entity,
                        ));
                    }
                }
            },
            None => {
                taken.push(Slot { kind, entity: e, value });
                proof {
                    assert forall|a: int, b: int| #![trigger taken@[a], taken@[b]]
                        0 <= a < b < taken@.len() implies !row_matches(
                        taken@[a],
                        taken@[b].kind,
                        taken@[b].entity,
                    ) by {
                        if b == taken@.len() - 1 {
                            assert(taken@[a] == old(self).rows()[a]);
                            if row_matches(taken@[a], kind, e) {
                                assert(has_row(old(self).rows(), kind, e));
                            }
                        }
                    }
                }
            },
        }
        core::mem::swap(&mut taken, &mut self.slots);
        proof {
            use_type_invariant(&*self);
            if old(self).has(kind, e) {
                let i = old(self).row_index(kind, e);
                assert(self.rows() == old(self).rows().update(i, srow));
                lemma_entities_in_update(old(self).rows(), i, srow);
                assert(row_matches(self.rows()[i], kind, e));
                assert(has_row(self.rows(), kind, e));
                lemma_row_index_unique(self.rows(), kind, e, i);
                assert forall|k2: u64, e2: Entity| !(k2 == kind && e2 == e) implies #[trigger] self
                    .has(k2, e2) == old(self).has(k2, e2) by {
                    if old(self).has(k2, e2) {
                        let j = choose|j: int|
                            0 <= j < old(self).rows().len() && row_matches(
                                #[trigger] old(self).rows()[j],
                                k2,
                                e2,
                            );
                        assert(j != i);
                        assert(self.rows()[j] == old(self).rows()[j]);
                        assert(self.has(k2, e2));
                    }
                    if self.has(k2, e2) {
                        let j = choose|j: int|
                            0 <= j < self.rows().len() && row_matches(
                                #[trigger] self.rows()[j],
                                k2,
                                e2,
                            );
                        assert(j != i);
                        assert(old(self).rows()[j] == self.rows()[j]);
                        assert(old(self).has(k2, e2));
                    }
                }
                assert forall|k2: u64, e2: Entity|
                    old(self).has(k2, e2) && !(k2 == kind && e2 == e) implies #[trigger] self
                    .value_of(k2, e2) == old(self).value_of(k2, e2) by {
                    let j = row_index_in(old(self).rows(), k2, e2);
                    assert(0 <= j < old(self).rows().len() && row_matches(
                        old(self).rows()[j],
                        k2,
                        e2,
                    ));
                    lemma_row_index_unique(old(self).rows(), k2, e2, j);
                    assert(j != i);
                    assert(self.rows()[j] == old(self).rows()[j]);
                    lemma_row_index_unique(self.rows(), k2, e2, j);
                }
            } else {
                assert(self.rows() == old(self).rows().push(srow));
                lemma_entities_in_push(old(self).rows(), srow);
                assert(row_matches(self.rows()[self.rows().len() - 1], kind, e));
                assert(has_row(self.rows(), kind, e));
                lemma_row_index_unique(self.rows(), kind, e, self.rows().len() - 1);
                assert forall|k2: u64, e2: Entity| !(k2 == kind && e2 == e) implies #[trigger] self
                    .has(k2, e2) == old(self).has(k2, e2) by {
                    if old(self).has(k2, e2) {
                        let j = choose|j: int|
                            0 <= j < old(self).rows().len() && row_matches(
                                #[trigger] old(self).rows()[j],
                                k2,
                                e2,
                            );
                        assert(self.rows()[j] == old(self).rows()[j]);
                        assert(self.has(k2, e2));
                    }
                    if self.has(k2, e2) {
                        let j = choose|j: int|
                            0 <= j < self.rows().len() && row_matches(
                                #[trigger] self.rows()[j],
                                k2,
                                e2,
                            );
                        assert(j != self.rows().len() - 1);
                        assert(old(self).rows()[j] == self.rows()[j]);
                        assert(old(self).has(k2, e2));
                    }
                }
                assert forall|k2: u64, e2: Entity|
                    old(self).has(k2, e2) && !(k2 == kind && e2 == e) implies #[trigger] self
                    .value_of(k2, e2) == old(self).value_of(k2, e2) by {
                    let j = row_index_in(old(self).rows(), k2, e2);
                    assert(0 <= j < old(self).rows().len() && row_matches(
                        old(self).rows()[j],
                        k2,
                        e2,
                    ));
                    lemma_row_index_unique(old(self).rows(), k2, e2, j);
                    assert(self.rows()[j] == old(self).rows()[j]);
                    lemma_row_index_unique(self.rows(), k2, e2, j);
                }
            }
        }
        Ok(())
    }

    /// Every live entity currently holding a component of `kind`, in insertion
    /// order. An absent kind yields the empty sequence, never an error.
    pub fn query(&self, kind: u64) -> (r: Vec<Entity>)
        ensures
            r@ == self.entities_of(kind),
    {
        let n = self.slots.len();
        let mut out: Vec<Entity> = Vec::new();
        let mut i: usize = 0;
        while i < n
            invariant
                n == self.slots@.len(),
                i <= n,
                out@ == entities_in(self.slots@.take(i as int), kind),
            decreases n - i,
        {
            proof {
                assert(self.slots@.take(i as int + 1).drop_last() =~= self.slots@.take(i as int));
                assert(self.slots@.take(i as int + 1).last() == self.slots@[i as int]);
            }
            if self.slots[i].kind == kind {
                out.push(self.slots[i].entity);
            }
            i = i + 1;
        }
        proof {
            assert(self.slots@.take(n as int) =~= self.slots@);
        }
        out
    }

    /// A borrow of the component of `kind` on `e`, or `None` exactly when no
    /// such component is attached.
    pub fn get(&self, kind: u64, e: Entity) -> (r: Option<&C>)
        ensures
            match r {
                Some(v) => self.has(kind, e) && *v == self.value_of(kind, e),
                None => !self.has(kind, e),
            },
    {
        match self.find(kind, e) {
            Some(i) => Some(&self.slots[i].value),
            None => None,
        }
    }
}

/// Law: iterating a kind yields exactly the entities holding that kind, each
/// exactly once — an entity appears in `entities_of(kind)` if and only if it
/// holds the kind, and then with multiplicity one.
pub proof fn lemma_query_exact<C>(w: World<C>, kind: u64, e: Entity)
    requires
        w.wf(),
    ensures
        w.entities_of(kind).contains(e) == w.has(kind, e),
        count_entity(w.entities_of(kind), e) == if w.has(kind, e) {
            1nat
        } else {
            0nat
        },
{
    lemma_entities_count(w.rows(), kind, e);
}

/// Law: an entity returned by a successful spawn of (`kind`, `value`) is
/// listed by a subsequent query of that kind exactly once, appended at the
/// end, and the value it holds is the one supplied to spawn.
pub proof fn lemma_spawn_then_query<C>(w0: World<C>, w1: World<C>, kind: u64, value: C, e: Entity)
    requires
        w1.wf(),
        w1.rows() == w0.rows().push((Slot { kind, entity: e, value })),
    ensures
        w1.entities_of(kind) == w0.entities_of(kind).push(e),
        count_entity(w1.entities_of(kind), e) == 1,
        w1.has(kind, e),
        w1.value_of(kind, e) == value,
{
    let srow = (Slot { kind, entity: e, value });
    lemma_entities_in_push(w0.rows(), srow);
    lemma_row_index_unique(w1.rows(), kind, e, w1.rows().len() - 1);
    lemma_entities_count(w1.rows(), kind, e);
}

/// Law: attaching `v2` over a prior value leaves the kind's iteration order
/// unchanged and is observable on the next lookup: the stored value is `v2`.
pub proof fn lemma_attach_overwrite<C>(w0: World<C>, w1: World<C>, kind: u64, v2: C, e: Entity)
    requires
        w0.wf(),
        w1.wf(),
        w0.has(kind, e),
        w1.rows() == w0.rows().update(w0.row_index(kind, e), (Slot { kind, entity: e, value: v2 })),
    ensures
        w1.entities_of(kind) == w0.entities_of(kind),
        w1.has(kind, e),
        w1.value_of(kind, e) == v2,
{
    let i = w0.row_index(kind, e);
    assert(0 <= i < w0.rows().len() && row_matches(w0.rows()[i], kind, e));
    lemma_entities_in_update(w0.rows(), i, (Slot { kind, entity: e, value: v2 }));
    assert(row_matches(w1.rows()[i], kind, e));
    assert(has_row(w1.rows(), kind, e));
    lemma_row_index_unique(w1.rows(), kind, e, i);
}

} // verus!
