//! The entity store: the dual-keyed identifier index, the entity storage
//! and the store facade with instantiate, get and filter.
//!
//! Entities live in one insertion-ordered arena owned by the storage, and a
//! handle is an index into that arena: two handles name the same in-memory
//! entity exactly when they are equal. The per-model list of the design is
//! the subsequence of arena entries carrying that model, read off in arena
//! order.

use vstd::prelude::*;

use crate::entity::{
    attr_index_of, descriptor_views, entity_wf, seed_attrs, with_recorded_value,
    AttributeDescriptor, DatabaseValue, Entity, EntityIdentifier, EntityView, Epoch, EpochPtr,
    IdentifierView, Model, PK,
};
use crate::errors::{EntityError, ErrorView};
use crate::expression::{
    expr_attr, expr_defined, expr_matches, match_entity, ExprView, FilterExpression,
};

verus! {

/// A handle to an entity in a store: the entity's index in the store's
/// arena. Handles returned for the same logical entity are equal.
pub type EntityHandle = usize;

// ---------------------------------------------------------------------------
// Identifier index
// ---------------------------------------------------------------------------

/// The mathematical model of one UUID index entry.
pub struct UuidSlot {
    pub uuid: u128,
    pub handle: int,
}

/// The mathematical model of one (model, primary key) index entry.
pub struct PkSlot {
    pub model: Seq<char>,
    pub pk: PK,
    pub handle: int,
}

/// The mathematical model of an [`EntityIdentifierIndex`].
#[verifier::ext_equal]
pub struct IndexView {
    pub uuids: Seq<UuidSlot>,
    pub pks: Seq<PkSlot>,
}

/// The handle the UUID index holds for `uuid`, if any: the first entry with
/// that UUID.
pub open spec fn uuid_lookup(s: Seq<UuidSlot>, uuid: u128) -> Option<int>
    decreases s.len(),
{
    if s.len() == 0 {
        None
    } else if s[0].uuid == uuid {
        Some(s[0].handle)
    } else {
        uuid_lookup(s.skip(1), uuid)
    }
}

/// The handle the primary-key index holds for `(model, pk)`, if any.
pub open spec fn pk_lookup(s: Seq<PkSlot>, model: Seq<char>, pk: PK) -> Option<int>
    decreases s.len(),
{
    if s.len() == 0 {
        None
    } else if s[0].model == model && s[0].pk == pk {
        Some(s[0].handle)
    } else {
        pk_lookup(s.skip(1), model, pk)
    }
}

/// The lookup policy of the index: the UUID entry wins; only when the UUID
/// is unknown and the identifier carries a primary key is the (model, pk)
/// entry consulted.
pub open spec fn index_lookup(ix: IndexView, id: IdentifierView) -> Option<int> {
    match uuid_lookup(ix.uuids, id.uuid) {
        Some(h) => Some(h),
        None => match id.pk {
            Some(pk) => pk_lookup(ix.pks, id.model, pk),
            None => None,
        },
    }
}

/// A successful UUID lookup names an entry; a failed one rules every entry
/// out.
proof fn lemma_uuid_lookup_index(s: Seq<UuidSlot>, uuid: u128)
    ensures
        match uuid_lookup(s, uuid) {
            Some(h) => exists|k: int|
                0 <= k < s.len() && (#[trigger] s[k]).uuid == uuid && s[k].handle == h,
            None => forall|k: int| 0 <= k < s.len() ==> (#[trigger] s[k]).uuid != uuid,
        },
    decreases s.len(),
{
    if s.len() > 0 && s[0].uuid != uuid {
        lemma_uuid_lookup_index(s.skip(1), uuid);
        assert forall|k: int| 0 <= k < s.len() && k >= 1 implies s[k] == s.skip(1)[k - 1] by {}
    }
}

/// A successful primary-key lookup names an entry; a failed one rules every
/// entry out.
proof fn lemma_pk_lookup_index(s: Seq<PkSlot>, model: Seq<char>, pk: PK)
    ensures
        match pk_lookup(s, model, pk) {
            Some(h) => exists|k: int|
                0 <= k < s.len() && (#[trigger] s[k]).model == model && s[k].pk == pk && s[k].handle
                    == h,
            None => forall|k: int|
                0 <= k < s.len() ==> !((#[trigger] s[k]).model == model && s[k].pk == pk),
        },
    decreases s.len(),
{
    if s.len() > 0 && !(s[0].model == model && s[0].pk == pk) {
        lemma_pk_lookup_index(s.skip(1), model, pk);
        assert forall|k: int| 0 <= k < s.len() && k >= 1 implies s[k] == s.skip(1)[k - 1] by {}
    }
}

/// The first matching entry determines the UUID lookup.
proof fn lemma_uuid_lookup_first(s: Seq<UuidSlot>, uuid: u128, k: int)
    requires
        0 <= k <= s.len(),
        forall|j: int| 0 <= j < k ==> (#[trigger] s[j]).uuid != uuid,
        k < s.len() ==> s[k].uuid == uuid,
    ensures
        k < s.len() ==> uuid_lookup(s, uuid) == Some(s[k].handle),
        k == s.len() ==> uuid_lookup(s, uuid) is None,
    decreases s.len(),
{
    if s.len() > 0 && k > 0 {
        assert forall|j: int| 0 <= j < k - 1 implies (#[trigger] s.skip(1)[j]).uuid != uuid by {
            assert(s.skip(1)[j] == s[j + 1]);
        }
        assert(k - 1 < s.skip(1).len() ==> s.skip(1)[k - 1].uuid == uuid);
        lemma_uuid_lookup_first(s.skip(1), uuid, k - 1);
    }
}

/// The first matching entry determines the primary-key lookup.
proof fn lemma_pk_lookup_first(s: Seq<PkSlot>, model: Seq<char>, pk: PK, k: int)
    requires
        0 <= k <= s.len(),
        forall|j: int| 0 <= j < k ==> !((#[trigger] s[j]).model == model && s[j].pk == pk),
        k < s.len() ==> s[k].model == model && s[k].pk == pk,
    ensures
        k < s.len() ==> pk_lookup(s, model, pk) == Some(s[k].handle),
        k == s.len() ==> pk_lookup(s, model, pk) is None,
    decreases s.len(),
{
    if s.len() > 0 && k > 0 {
        assert forall|j: int| 0 <= j < k - 1 implies !((#[trigger] s.skip(1)[j]).model == model
            && s.skip(1)[j].pk == pk) by {
            assert(s.skip(1)[j] == s[j + 1]);
        }
        assert(k - 1 < s.skip(1).len() ==> s.skip(1)[k - 1].model == model && s.skip(1)[k - 1].pk
            == pk);
        lemma_pk_lookup_first(s.skip(1), model, pk, k - 1);
    }
}

/// Appending an entry leaves every present key's lookup unchanged and makes
/// the new entry's key resolve to it if the key was absent.
proof fn lemma_uuid_lookup_push(s: Seq<UuidSlot>, slot: UuidSlot, uuid: u128)
    ensures
        uuid_lookup(s.push(slot), uuid) == (match uuid_lookup(s, uuid) {
            Some(h) => Some(h),
            None => if slot.uuid == uuid {
                Some(slot.handle)
            } else {
                None
            },
        }),
    decreases s.len(),
{
    if s.len() == 0 {
        assert(s.push(slot)[0] == slot);
        assert(s.push(slot).skip(1) =~= Seq::<UuidSlot>::empty());
        assert(uuid_lookup(Seq::<UuidSlot>::empty(), uuid) is None);
    } else {
        assert(s.push(slot)[0] == s[0]);
        assert(s.push(slot).skip(1) =~= s.skip(1).push(slot));
        lemma_uuid_lookup_push(s.skip(1), slot, uuid);
        if s[0].uuid != uuid {
            assert(uuid_lookup(s.push(slot), uuid) == uuid_lookup(s.skip(1).push(slot), uuid));
            assert(uuid_lookup(s, uuid) == uuid_lookup(s.skip(1), uuid));
        }
    }
}

/// Appending an entry leaves every present key's lookup unchanged and makes
/// the new entry's key resolve to it if the key was absent.
proof fn lemma_pk_lookup_push(s: Seq<PkSlot>, slot: PkSlot, model: Seq<char>, pk: PK)
    ensures
        pk_lookup(s.push(slot), model, pk) == (match pk_lookup(s, model, pk) {
            Some(h) => Some(h),
            None => if slot.model == model && slot.pk == pk {
                Some(slot.handle)
            } else {
                None
            },
        }),
    decreases s.len(),
{
    if s.len() == 0 {
        assert(s.push(slot)[0] == slot);
        assert(s.push(slot).skip(1) =~= Seq::<PkSlot>::empty());
        assert(pk_lookup(Seq::<PkSlot>::empty(), model, pk) is None);
    } else {
        assert(s.push(slot)[0] == s[0]);
        assert(s.push(slot).skip(1) =~= s.skip(1).push(slot));
        lemma_pk_lookup_push(s.skip(1), slot, model, pk);
        if !(s[0].model == model && s[0].pk == pk) {
            assert(pk_lookup(s.push(slot), model, pk) == pk_lookup(s.skip(1).push(slot), model, pk));
            assert(pk_lookup(s, model, pk) == pk_lookup(s.skip(1), model, pk));
        }
    }
}

/// One UUID index entry.
struct UuidEntry {
    uuid: u128,
    handle: EntityHandle,
}

impl View for UuidEntry {
    type V = UuidSlot;

    closed spec fn view(&self) -> UuidSlot {
        UuidSlot { uuid: self.uuid, handle: self.handle as int }
    }
}

/// One primary-key index entry.
struct PkEntry {
    model: Model,
    pk: PK,
    handle: EntityHandle,
}

impl View for PkEntry {
    type V = PkSlot;

    closed spec fn view(&self) -> PkSlot {
        PkSlot { model: self.model@, pk: self.pk, handle: self.handle as int }
    }
}

/// The dual lookup of entity handles: by UUID and by (model, primary key).
pub struct EntityIdentifierIndex {
    uuid_entries: Vec<UuidEntry>,
    pk_entries: Vec<PkEntry>,
}

impl View for EntityIdentifierIndex {
    type V = IndexView;

    closed spec fn view(&self) -> IndexView {
        IndexView {
            uuids: self.uuid_entries@.map_values(|u: UuidEntry| u@),
            pks: self.pk_entries@.map_values(|p: PkEntry| p@),
        }
    }
}

impl EntityIdentifierIndex {
    /// An empty index.
    pub fn new() -> (r: EntityIdentifierIndex)
        ensures
            r@.uuids == Seq::<UuidSlot>::empty(),
            r@.pks == Seq::<PkSlot>::empty(),
    {
        let r = EntityIdentifierIndex { uuid_entries: Vec::new(), pk_entries: Vec::new() };
        assert(r@.uuids =~= Seq::<UuidSlot>::empty());
        assert(r@.pks =~= Seq::<PkSlot>::empty());
        r
    }

    /// The handle the UUID index holds for `uuid`, if any.
    fn find_uuid(&self, uuid: u128) -> (r: Option<EntityHandle>)
        ensures
            match r {
                Some(h) => uuid_lookup(self@.uuids, uuid) == Some(h as int),
                None => uuid_lookup(self@.uuids, uuid) is None,
            },
    {
        let ghost views = self@.uuids;
        let n = self.uuid_entries.len();
        let mut i: usize = 0;
        while i < n
            invariant
                0 <= i <= n,
                n == self.uuid_entries@.len(),
                views == self@.uuids,
                forall|j: int| 0 <= j < i ==> (#[trigger] views[j]).uuid != uuid,
            decreases n - i,
        {
            let entry = &self.uuid_entries[i];
            assert(entry@ == views[i as int]);
            if entry.uuid == uuid {
                proof {
                    lemma_uuid_lookup_first(views, uuid, i as int);
                }
                return Some(entry.handle);
            }
            i = i + 1;
        }
        proof {
            lemma_uuid_lookup_first(views, uuid, n as int);
        }
        None
    }

    /// The handle the primary-key index holds for `(model, pk)`, if any.
    fn find_pk(&self, model: &Model, pk: PK) -> (r: Option<EntityHandle>)
        ensures
            match r {
                Some(h) => pk_lookup(self@.pks, model@, pk) == Some(h as int),
                None => pk_lookup(self@.pks, model@, pk) is None,
            },
    {
        let ghost views = self@.pks;
        let n = self.pk_entries.len();
        let mut i: usize = 0;
        while i < n
            invariant
                0 <= i <= n,
                n == self.pk_entries@.len(),
                views == self@.pks,
                forall|j: int|
                    0 <= j < i ==> !((#[trigger] views[j]).model == model@ && views[j].pk == pk),
            decreases n - i,
        {
            let entry = &self.pk_entries[i];
            assert(entry@ == views[i as int]);
            if entry.pk == pk && entry.model == *model {
                proof {
                    lemma_pk_lookup_first(views, model@, pk, i as int);
                }
                return Some(entry.handle);
            }
            i = i + 1;
        }
        proof {
            lemma_pk_lookup_first(views, model@, pk, n as int);
        }
        None
    }

    /// The handle registered for `identifier`: the UUID entry first, then,
    /// for an identifier with a primary key, the (model, pk) entry, else
    /// `EntityNotFound`.
    pub fn get(&self, identifier: &EntityIdentifier) -> (r: Result<EntityHandle, EntityError>)
        ensures
            match r {
                Ok(h) => index_lookup(self@, identifier@) == Some(h as int),
                Err(e) => index_lookup(self@, identifier@) is None && e@
                    == ErrorView::EntityNotFound(identifier@),
            },
    {
        match self.find_uuid(identifier.get_uuid()) {
            Some(h) => Ok(h),
            None => {
                match identifier.get_applied_pk() {
                    Ok(pk) => {
                        match self.find_pk(identifier.get_model(), pk) {
                            Some(h) => Ok(h),
                            None => Err(EntityError::EntityNotFound(identifier.clone())),
                        }
                    },
                    Err(_) => Err(EntityError::EntityNotFound(identifier.clone())),
                }
            },
        }
    }

    /// Register `handle` under the identifier's UUID, and additionally
    /// under (model, pk) iff a primary key is applied at this moment. The
    /// caller keeps the keys fresh: entities are registered once.
    pub fn add(&mut self, identifier: &EntityIdentifier, handle: EntityHandle)
        requires
            uuid_lookup(old(self)@.uuids, identifier@.uuid) is None,
        ensures
            final(self)@.uuids == old(self)@.uuids.push(
                UuidSlot { uuid: identifier@.uuid, handle: handle as int },
            ),
            identifier@.pk is Some ==> final(self)@.pks == old(self)@.pks.push(
                PkSlot {
                    model: identifier@.model,
                    pk: identifier@.pk.unwrap(),
                    handle: handle as int,
                },
            ),
            identifier@.pk is None ==> final(self)@.pks == old(self)@.pks,
    {
        let ghost old_uuids = self@.uuids;
        let ghost old_pks = self@.pks;
        self.uuid_entries.push(UuidEntry { uuid: identifier.get_uuid(), handle });
        assert(self@.uuids =~= old_uuids.push(
            UuidSlot { uuid: identifier@.uuid, handle: handle as int },
        ));
        assert(self@.pks =~= old_pks);
        match identifier.get_applied_pk() {
            Ok(pk) => {
                self.pk_entries.push(
                    PkEntry { model: identifier.get_model().clone(), pk, handle },
                );
                assert(self@.pks =~= old_pks.push(
                    PkSlot {
                        model: identifier@.model,
                        pk: identifier@.pk.unwrap(),
                        handle: handle as int,
                    },
                ));
            },
            Err(_) => {},
        }
    }
}

// ---------------------------------------------------------------------------
// Entity storage
// ---------------------------------------------------------------------------

/// Every entity of a well-formed arena is well-formed.
pub open spec fn entities_wf(ents: Seq<EntityView>) -> bool {
    forall|i: int| 0 <= i < ents.len() ==> entity_wf(#[trigger] ents[i])
}

/// Whether arena entry `i` exists and belongs to model `m`.
pub open spec fn in_model(ents: Seq<EntityView>, m: Seq<char>, i: int) -> bool {
    0 <= i < ents.len() && ents[i].identifier.model == m
}

/// What a successful filter returns: exactly the handles of the entities
/// of model `m` that match `x` at epoch `cur`, in insertion order, each
/// defining the attribute `x` reads.
pub open spec fn filter_ok(
    ents: Seq<EntityView>,
    m: Seq<char>,
    x: ExprView,
    cur: Epoch,
    handles: Seq<EntityHandle>,
) -> bool {
    &&& forall|k: int|
        0 <= k < handles.len() ==> in_model(ents, m, #[trigger] handles[k] as int) && expr_defined(
            x,
            ents[handles[k] as int],
        ) && expr_matches(x, ents[handles[k] as int], cur)
    &&& forall|k1: int, k2: int| 0 <= k1 < k2 < handles.len() ==> handles[k1] < handles[k2]
    &&& forall|i: int| in_model(ents, m, i) ==> expr_defined(x, ents[i])
    &&& forall|i: int|
        in_model(ents, m, i) && expr_matches(x, ents[i], cur) ==> exists|k: int|
            0 <= k < handles.len() && #[trigger] handles[k] == i
}

/// When a filter fails: some entity of the model lacks the attribute the
/// expression reads.
pub open spec fn filter_err(ents: Seq<EntityView>, m: Seq<char>, x: ExprView) -> bool {
    exists|i: int| #[trigger] in_model(ents, m, i) && !expr_defined(x, ents[i])
}

/// Owns the entities, in one insertion-ordered arena; a model's list is the
/// subsequence of arena entries carrying that model.
pub struct EntityStorage {
    entities: Vec<Entity>,
}

impl View for EntityStorage {
    type V = Seq<EntityView>;

    closed spec fn view(&self) -> Seq<EntityView> {
        self.entities@.map_values(|e: Entity| e@)
    }
}

impl EntityStorage {
    /// All stored entities are well-formed.
    pub open spec fn wf(&self) -> bool {
        entities_wf(self@)
    }

    /// An empty storage.
    pub fn new() -> (r: EntityStorage)
        ensures
            r@ == Seq::<EntityView>::empty(),
            r.wf(),
    {
        let r = EntityStorage { entities: Vec::new() };
        assert(r@ =~= Seq::<EntityView>::empty());
        r
    }

    /// The number of stored entities.
    pub fn len(&self) -> (r: usize)
        ensures
            r == self@.len(),
    {
        self.entities.len()
    }

    /// Take ownership of `entity`, append it to the arena and hand its
    /// handle back.
    pub fn add(&mut self, entity: Entity) -> (r: EntityHandle)
        requires
            old(self).wf(),
            entity.wf(),
        ensures
            final(self).wf(),
            final(self)@ == old(self)@.push(entity@),
            r as int == old(self)@.len(),
    {
        let handle = self.entities.len();
        let ghost ev = entity@;
        self.entities.push(entity);
        assert(self@ =~= old(self)@.push(ev));
        handle
    }

    /// A shared reference to the entity behind `handle`.
    pub fn entity(&self, handle: EntityHandle) -> (r: &Entity)
        requires
            handle < self@.len(),
        ensures
            r@ == self@[handle as int],
    {
        let e = &self.entities[handle];
        assert(e@ == self@[handle as int]);
        e
    }

    /// Record `value` at `epoch` on the named attribute of the entity
    /// behind `handle`, or report `AttributeNotFound` and change nothing.
    pub fn set_attribute_value(
        &mut self,
        handle: EntityHandle,
        attribute: &str,
        value: DatabaseValue,
        epoch: Epoch,
    ) -> (r: Result<(), EntityError>)
        requires
            old(self).wf(),
            handle < old(self)@.len(),
        ensures
            final(self).wf(),
            match r {
                Ok(_) => attr_index_of(old(self)@[handle as int].attrs, attribute@) is Some
                    && final(self)@ == old(self)@.update(
                    handle as int,
                    with_recorded_value(old(self)@[handle as int], attribute@, epoch, value@),
                ),
                Err(e) => attr_index_of(old(self)@[handle as int].attrs, attribute@) is None
                    && final(self)@ == old(self)@ && e@ == ErrorView::AttributeNotFound(attribute@),
            },
    {
        let ghost prior = self@;
        let mut entity = self.entities.remove(handle);
        let outcome = entity.set_attribute_value(attribute, value, epoch);
        self.entities.insert(handle, entity);
        proof {
            let h = handle as int;
            assert(self.entities@ == old(self).entities@.remove(h).insert(h, entity));
            old(self).entities@.remove_ensures(h);
            old(self).entities@.remove(h).insert_ensures(h, entity);
            assert forall|k: int| 0 <= k < self@.len() implies self@[k] == (if k == h {
                entity@
            } else {
                prior[k]
            }) by {
                if k < h {
                    assert(old(self).entities@.remove(h)[k] == old(self).entities@[k]);
                } else if k > h {
                    assert(old(self).entities@.remove(h)[k - 1] == old(self).entities@[k]);
                }
            }
            if outcome is Ok {
                assert(self@ =~= old(self)@.update(
                    h,
                    with_recorded_value(prior[h], attribute@, epoch, value@),
                ));
            } else {
                assert(self@ =~= prior);
            }
        }
        outcome
    }

    /// All handles of entities of model `model` matching the expression at
    /// the epoch of `current_ptr`, in insertion order; `AttributeNotFound`
    /// iff some entity of the model lacks the attribute the expression
    /// reads. A model with no entities yields the empty list.
    pub fn filter(
        &self,
        model: Model,
        filter_expression: &FilterExpression,
        current_ptr: &EpochPtr,
    ) -> (r: Result<Vec<EntityHandle>, EntityError>)
        requires
            self.wf(),
        ensures
            match r {
                Ok(handles) => filter_ok(
                    self@,
                    model@,
                    filter_expression@,
                    current_ptr.spec_epoch(),
                    handles@,
                ),
                Err(e) => filter_err(self@, model@, filter_expression@) && e@
                    == ErrorView::AttributeNotFound(expr_attr(filter_expression@)),
            },
    {
        let n = self.entities.len();
        let mut result: Vec<EntityHandle> = Vec::new();
        let mut i: usize = 0;
        while i < n
            invariant
                0 <= i <= n,
                n == self@.len(),
                self.wf(),
                forall|k: int|
                    0 <= k < result@.len() ==> in_model(self@, model@, #[trigger] result@[k] as int)
                        && result@[k] < i && expr_defined(
                        filter_expression@,
                        self@[result@[k] as int],
                    ) && expr_matches(
                        filter_expression@,
                        self@[result@[k] as int],
                        current_ptr.spec_epoch(),
                    ),
                forall|k1: int, k2: int|
                    0 <= k1 < k2 < result@.len() ==> result@[k1] < result@[k2],
                forall|j: int|
                    0 <= j < i && in_model(self@, model@, j) ==> expr_defined(
                        filter_expression@,
                        self@[j],
                    ),
                forall|j: int|
                    0 <= j < i && in_model(self@, model@, j) && expr_matches(
                        filter_expression@,
                        self@[j],
                        current_ptr.spec_epoch(),
                    ) ==> exists|k: int| 0 <= k < result@.len() && #[trigger] result@[k] == j,
            decreases n - i,
        {
            let entity = &self.entities[i];
            assert(entity@ == self@[i as int]);
            if *entity.get_identifier().get_model() == model {
                assert(in_model(self@, model@, i as int));
                match match_entity(filter_expression, entity, current_ptr) {
                    Ok(true) => {
                        let ghost prev = result@;
                        result.push(i);
                        proof {
                            assert forall|j: int|
                                0 <= j < i + 1 && in_model(self@, model@, j) && expr_matches(
                                    filter_expression@,
                                    self@[j],
                                    current_ptr.spec_epoch(),
                                ) implies exists|k: int|
                                0 <= k < result@.len() && #[trigger] result@[k] == j by {
                                if j < i {
                                    let k = choose|k: int|
                                        0 <= k < prev.len() && #[trigger] prev[k] == j;
                                    assert(result@[k] == j);
                                } else {
                                    assert(result@[result@.len() - 1] == j);
                                }
                            }
                        }
                    },
                    Ok(false) => {
                    },
                    Err(e) => {
                        assert(filter_err(self@, model@, filter_expression@)) by {
                            assert(in_model(self@, model@, i as int) && !expr_defined(
                                filter_expression@,
                                self@[i as int],
                            ));
                        }
                        return Err(e);
                    },
                }
            } else {
                assert(!in_model(self@, model@, i as int));
            }
            i = i + 1;
        }
        proof {
            assert(filter_ok(self@, model@, filter_expression@, current_ptr.spec_epoch(), result@));
        }
        Ok(result)
    }
}


// ---------------------------------------------------------------------------
// Entity store
// ---------------------------------------------------------------------------

/// The mathematical model of an [`EntityStore`]: the two cursor epochs and
/// the arena of entities in insertion order.
#[verifier::ext_equal]
pub struct StoreView {
    pub initial: Epoch,
    pub current: Epoch,
    pub entities: Seq<EntityView>,
}

/// Whether arena entry `i` exists and carries UUID `uuid`.
pub open spec fn has_uuid(ents: Seq<EntityView>, uuid: u128, i: int) -> bool {
    0 <= i < ents.len() && ents[i].identifier.uuid == uuid
}

/// Whether arena entry `i` exists and carries the persisted key
/// `(model, pk)`.
pub open spec fn has_model_pk(ents: Seq<EntityView>, model: Seq<char>, pk: PK, i: int) -> bool {
    0 <= i < ents.len() && ents[i].identifier.model == model && ents[i].identifier.pk == Some(pk)
}

/// Which arena entry the identifier resolves to, following the lookup
/// policy: an entry with the identifier's UUID wins; only when no entry
/// carries that UUID does a persisted (model, pk) match count.
pub open spec fn identifies(ents: Seq<EntityView>, id: IdentifierView, i: int) -> bool {
    ||| has_uuid(ents, id.uuid, i)
    ||| (!(exists|j: int| has_uuid(ents, id.uuid, j)) && id.pk is Some && has_model_pk(
        ents,
        id.model,
        id.pk.unwrap(),
        i,
    ))
}

/// The entity store: owns the two epoch cursors, the storage and the
/// identifier index; exposes instantiate, get and filter.
pub struct EntityStore {
    initial_ptr: EpochPtr,
    current_ptr: EpochPtr,
    entities: EntityStorage,
    index: EntityIdentifierIndex,
}

impl View for EntityStore {
    type V = StoreView;

    closed spec fn view(&self) -> StoreView {
        StoreView {
            initial: self.initial_ptr.spec_epoch(),
            current: self.current_ptr.spec_epoch(),
            entities: self.entities@,
        }
    }
}

impl EntityStore {
    /// The index mirrors the arena: every index entry points at an entity
    /// carrying its key, every stored UUID is indexed, and every stored
    /// persisted key is indexed.
    closed spec fn wf_index(&self) -> bool {
        let ents = self.entities@;
        let ix = self.index@;
        &&& forall|k: int|
            0 <= k < ix.uuids.len() ==> 0 <= (#[trigger] ix.uuids[k]).handle < ents.len()
                && ents[ix.uuids[k].handle].identifier.uuid == ix.uuids[k].uuid
        &&& forall|i: int|
            0 <= i < ents.len() ==> uuid_lookup(ix.uuids, (#[trigger] ents[i]).identifier.uuid)
                == Some(i)
        &&& forall|k: int|
            0 <= k < ix.pks.len() ==> 0 <= (#[trigger] ix.pks[k]).handle < ents.len()
                && ents[ix.pks[k].handle].identifier.model == ix.pks[k].model
                && ents[ix.pks[k].handle].identifier.pk == Some(ix.pks[k].pk)
        &&& forall|i: int|
            0 <= i < ents.len() && (#[trigger] ents[i]).identifier.pk is Some ==> pk_lookup(
                ix.pks,
                ents[i].identifier.model,
                ents[i].identifier.pk.unwrap(),
            ) == Some(i)
    }

    /// A well-formed store: well-formed entities and an index that mirrors
    /// the arena. Established by `new` and preserved by every operation.
    pub closed spec fn wf(&self) -> bool {
        &&& self.entities.wf()
        &&& self.wf_index()
    }

    /// A fresh store: both cursors at epoch 0, no entities.
    pub fn new() -> (r: EntityStore)
        ensures
            r.wf(),
            r@.initial == 0,
            r@.current == 0,
            r@.entities == Seq::<EntityView>::empty(),
    {
        EntityStore {
            initial_ptr: EpochPtr::default(),
            current_ptr: EpochPtr::default(),
            entities: EntityStorage::new(),
            index: EntityIdentifierIndex::new(),
        }
    }

    /// The handle the identifier resolves to, or `EntityNotFound`. Equal
    /// calls return equal handles.
    pub fn get(&self, identifier: &EntityIdentifier) -> (r: Result<EntityHandle, EntityError>)
        requires
            self.wf(),
        ensures
            match r {
                Ok(h) => identifies(self@.entities, identifier@, h as int),
                Err(e) => (forall|i: int| !#[trigger] identifies(self@.entities, identifier@, i))
                    && e@ == ErrorView::EntityNotFound(identifier@),
            },
    {
        proof {
            lemma_index_lookup_bridge(*self, identifier@);
        }
        self.index.get(identifier)
    }

    /// Install `entity` unless an entity with an equal identifier is
    /// already registered; in that case return the existing handle and drop
    /// the new entity unchanged (deduplication).
    pub fn add_entity(&mut self, entity: Entity) -> (r: EntityHandle)
        requires
            old(self).wf(),
            entity.wf(),
        ensures
            final(self).wf(),
            final(self)@.initial == old(self)@.initial,
            final(self)@.current == old(self)@.current,
            if exists|i: int| #[trigger] identifies(old(self)@.entities, entity@.identifier, i) {
                identifies(old(self)@.entities, entity@.identifier, r as int) && *final(self)
                    == *old(self)
            } else {
                final(self)@.entities == old(self)@.entities.push(entity@) && r as int == old(
                    self,
                )@.entities.len()
            },
    {
        proof {
            lemma_index_lookup_bridge(*self, entity@.identifier);
        }
        let get_result = self.index.get(entity.get_identifier());
        match get_result {
            Ok(h) => {
                assert(identifies(self@.entities, entity@.identifier, h as int));
                h
            },
            Err(_) => {
                let ghost old_ents = self.entities@;
                let ghost old_uuids = self.index@.uuids;
                let ghost old_pks = self.index@.pks;
                let ghost ev = entity@;
                let identifier = entity.get_identifier().clone();
                let handle = self.entities.add(entity);
                self.index.add(&identifier, handle);
                proof {
                    let ents2 = self.entities@;
                    let ix2 = self.index@;
                    let n = old_ents.len() as int;
                    let uslot = UuidSlot { uuid: ev.identifier.uuid, handle: n };
                    assert(ents2 == old_ents.push(ev));
                    assert(ix2.uuids == old_uuids.push(uslot));
                    assert forall|k: int|
                        0 <= k < ix2.uuids.len() implies 0 <= (#[trigger] ix2.uuids[k]).handle
                        < ents2.len() && ents2[ix2.uuids[k].handle].identifier.uuid
                        == ix2.uuids[k].uuid by {
                        if k < old_uuids.len() {
                            assert(ix2.uuids[k] == old_uuids[k]);
                            assert(ents2[old_uuids[k].handle] == old_ents[old_uuids[k].handle]);
                        } else {
                            assert(ix2.uuids[k] == uslot);
                            assert(ents2[n] == ev);
                        }
                    }
                    assert forall|i: int|
                        0 <= i < ents2.len() implies uuid_lookup(
                        ix2.uuids,
                        (#[trigger] ents2[i]).identifier.uuid,
                    ) == Some(i) by {
                        lemma_uuid_lookup_push(old_uuids, uslot, ents2[i].identifier.uuid);
                        if i < n {
                            assert(ents2[i] == old_ents[i]);
                            assert(uuid_lookup(old_uuids, old_ents[i].identifier.uuid) == Some(i));
                        } else {
                            assert(ents2[i] == ev);
                            assert(uuid_lookup(old_uuids, ev.identifier.uuid) is None);
                        }
                    }
                    if ev.identifier.pk is Some {
                        let pk = ev.identifier.pk.unwrap();
                        let pslot = PkSlot { model: ev.identifier.model, pk, handle: n };
                        assert(ix2.pks == old_pks.push(pslot));
                        assert(pk_lookup(old_pks, ev.identifier.model, pk) is None) by {
                            lemma_pk_lookup_index(old_pks, ev.identifier.model, pk);
                            if pk_lookup(old_pks, ev.identifier.model, pk) is Some {
                                let k = choose|k: int|
                                    0 <= k < old_pks.len() && (#[trigger] old_pks[k]).model
                                        == ev.identifier.model && old_pks[k].pk == pk;
                                let h2 = old_pks[k].handle;
                                assert(has_model_pk(old_ents, ev.identifier.model, pk, h2));
                                assert(identifies(old_ents, ev.identifier, h2));
                            }
                        }
                        assert forall|k: int|
                            0 <= k < ix2.pks.len() implies 0 <= (#[trigger] ix2.pks[k]).handle
                            < ents2.len() && ents2[ix2.pks[k].handle].identifier.model
                            == ix2.pks[k].model && ents2[ix2.pks[k].handle].identifier.pk == Some(
                            ix2.pks[k].pk,
                        ) by {
                            if k < old_pks.len() {
                                assert(ix2.pks[k] == old_pks[k]);
                                assert(ents2[old_pks[k].handle] == old_ents[old_pks[k].handle]);
                            } else {
                                assert(ix2.pks[k] == pslot);
                                assert(ents2[n] == ev);
                            }
                        }
                        assert forall|i: int|
                            0 <= i < ents2.len() && (#[trigger] ents2[i]).identifier.pk
                                is Some implies pk_lookup(
                            ix2.pks,
                            ents2[i].identifier.model,
                            ents2[i].identifier.pk.unwrap(),
                        ) == Some(i) by {
                            lemma_pk_lookup_push(
                                old_pks,
                                pslot,
                                ents2[i].identifier.model,
                                ents2[i].identifier.pk.unwrap(),
                            );
                            if i < n {
                                assert(ents2[i] == old_ents[i]);
                            } else {
                                assert(ents2[i] == ev);
                            }
                        }
                    } else {
                        assert(ix2.pks == old_pks);
                        assert forall|k: int|
                            0 <= k < ix2.pks.len() implies 0 <= (#[trigger] ix2.pks[k]).handle
                            < ents2.len() && ents2[ix2.pks[k].handle].identifier.model
                            == ix2.pks[k].model && ents2[ix2.pks[k].handle].identifier.pk == Some(
                            ix2.pks[k].pk,
                        ) by {
                            assert(ents2[old_pks[k].handle] == old_ents[old_pks[k].handle]);
                        }
                        assert forall|i: int|
                            0 <= i < ents2.len() && (#[trigger] ents2[i]).identifier.pk
                                is Some implies pk_lookup(
                            ix2.pks,
                            ents2[i].identifier.model,
                            ents2[i].identifier.pk.unwrap(),
                        ) == Some(i) by {
                            if i < n {
                                assert(ents2[i] == old_ents[i]);
                            } else {
                                assert(ents2[i] == ev);
                            }
                        }
                    }
                }
                handle
            },
        }
    }

    /// Build an entity from the identifier and descriptors, bound to this
    /// store's cursors and seeded at the initial epoch, then install it
    /// with deduplication as `add_entity` does.
    pub fn instantiate_entity(
        &mut self,
        identifier: EntityIdentifier,
        attributes_descriptors: Vec<AttributeDescriptor>,
    ) -> (r: EntityHandle)
        requires
            old(self).wf(),
            forall|k: int|
                0 <= k < attributes_descriptors@.len() ==> (#[trigger] attributes_descriptors@[k])@.kind
                    is Physical,
        ensures
            final(self).wf(),
            final(self)@.initial == old(self)@.initial,
            final(self)@.current == old(self)@.current,
            ({
                let ev = EntityView {
                    identifier: identifier@,
                    attrs: seed_attrs(
                        descriptor_views(attributes_descriptors@),
                        old(self)@.initial,
                    ),
                };
                if exists|i: int| #[trigger] identifies(old(self)@.entities, identifier@, i) {
                    identifies(old(self)@.entities, identifier@, r as int) && *final(self) == *old(
                        self,
                    )
                } else {
                    final(self)@.entities == old(self)@.entities.push(ev) && r as int == old(
                        self,
                    )@.entities.len()
                }
            }),
    {
        let entity = Entity::new(identifier, attributes_descriptors, &self.initial_ptr);
        self.add_entity(entity)
    }

    /// All handles of entities of `model` matching the expression at the
    /// current epoch, in insertion order.
    pub fn filter(&self, model: Model, filter_expression: &FilterExpression) -> (r: Result<
        Vec<EntityHandle>,
        EntityError,
    >)
        requires
            self.wf(),
        ensures
            match r {
                Ok(handles) => filter_ok(
                    self@.entities,
                    model@,
                    filter_expression@,
                    self@.current,
                    handles@,
                ),
                Err(e) => filter_err(self@.entities, model@, filter_expression@) && e@
                    == ErrorView::AttributeNotFound(expr_attr(filter_expression@)),
            },
    {
        self.entities.filter(model, filter_expression, &self.current_ptr)
    }

    /// A shared reference to the entity behind `handle`.
    pub fn entity(&self, handle: EntityHandle) -> (r: &Entity)
        requires
            self.wf(),
            handle < self@.entities.len(),
        ensures
            r@ == self@.entities[handle as int],
            r.wf(),
    {
        self.entities.entity(handle)
    }

    /// How many entities the store holds.
    pub fn num_entities(&self) -> (r: usize)
        ensures
            r == self@.entities.len(),
    {
        self.entities.len()
    }

    /// Record `value` at `epoch` on the named attribute of the entity
    /// behind `handle`, or report `AttributeNotFound` and change nothing.
    pub fn set_attribute_value(
        &mut self,
        handle: EntityHandle,
        attribute: &str,
        value: DatabaseValue,
        epoch: Epoch,
    ) -> (r: Result<(), EntityError>)
        requires
            old(self).wf(),
            handle < old(self)@.entities.len(),
        ensures
            final(self).wf(),
            final(self)@.initial == old(self)@.initial,
            final(self)@.current == old(self)@.current,
            match r {
                Ok(_) => attr_index_of(old(self)@.entities[handle as int].attrs, attribute@)
                    is Some && final(self)@.entities == old(self)@.entities.update(
                    handle as int,
                    with_recorded_value(
                        old(self)@.entities[handle as int],
                        attribute@,
                        epoch,
                        value@,
                    ),
                ),
                Err(e) => attr_index_of(old(self)@.entities[handle as int].attrs, attribute@)
                    is None && final(self)@ == old(self)@ && e@ == ErrorView::AttributeNotFound(
                    attribute@,
                ),
            },
    {
        let ghost old_ents = self.entities@;
        let r = self.entities.set_attribute_value(handle, attribute, value, epoch);
        proof {
            let ents2 = self.entities@;
            assert forall|i: int|
                0 <= i < ents2.len() implies (#[trigger] ents2[i]).identifier == old_ents[i].identifier
                    && ents2.len() == old_ents.len() by {
                if r is Ok && i == handle as int {
                    assert(ents2[i] == with_recorded_value(
                        old_ents[i],
                        attribute@,
                        epoch,
                        value@,
                    ));
                }
            }
            assert(self.wf_index()) by {
                assert forall|i: int|
                    0 <= i < ents2.len() implies uuid_lookup(
                    self.index@.uuids,
                    (#[trigger] ents2[i]).identifier.uuid,
                ) == Some(i) by {
                    assert(ents2[i].identifier == old_ents[i].identifier);
                }
                assert forall|i: int|
                    0 <= i < ents2.len() && (#[trigger] ents2[i]).identifier.pk is Some implies pk_lookup(
                    self.index@.pks,
                    ents2[i].identifier.model,
                    ents2[i].identifier.pk.unwrap(),
                ) == Some(i) by {
                    assert(ents2[i].identifier == old_ents[i].identifier);
                }
            }
        }
        r
    }

    /// Move the initial cursor; every attribute of the store observes the
    /// new epoch at once.
    pub fn slide_initial(&mut self, epoch: Epoch)
        ensures
            final(self)@ == (StoreView { initial: epoch, ..old(self)@ }),
            final(self).wf() == old(self).wf(),
    {
        self.initial_ptr.slide(epoch);
    }

    /// Move the current cursor; every attribute of the store observes the
    /// new epoch at once.
    pub fn slide_current(&mut self, epoch: Epoch)
        ensures
            final(self)@ == (StoreView { current: epoch, ..old(self)@ }),
            final(self).wf() == old(self).wf(),
    {
        self.current_ptr.slide(epoch);
    }

    /// The initial-epoch cursor, for point-in-time reads.
    pub fn initial_ptr(&self) -> (r: &EpochPtr)
        ensures
            r.spec_epoch() == self@.initial,
    {
        &self.initial_ptr
    }

    /// The current-epoch cursor, for point-in-time reads.
    pub fn current_ptr(&self) -> (r: &EpochPtr)
        ensures
            r.spec_epoch() == self@.current,
    {
        &self.current_ptr
    }
}

/// What the index answers, read back through the store's invariant: a hit
/// is an entity the identifier resolves to, a miss means no entity
/// resolves.
proof fn lemma_index_lookup_bridge(s: EntityStore, id: IdentifierView)
    requires
        s.wf(),
    ensures
        match index_lookup(s.index@, id) {
            Some(h) => identifies(s@.entities, id, h) && 0 <= h < s@.entities.len(),
            None => forall|i: int| !#[trigger] identifies(s@.entities, id, i),
        },
{
    let ents = s.entities@;
    let ix = s.index@;
    lemma_uuid_lookup_index(ix.uuids, id.uuid);
    match uuid_lookup(ix.uuids, id.uuid) {
        Some(h) => {
            let k = choose|k: int|
                0 <= k < ix.uuids.len() && (#[trigger] ix.uuids[k]).uuid == id.uuid
                    && ix.uuids[k].handle == h;
            assert(has_uuid(ents, id.uuid, h));
        },
        None => {
            assert forall|j: int| !#[trigger] has_uuid(ents, id.uuid, j) by {
                if 0 <= j < ents.len() && ents[j].identifier.uuid == id.uuid {
                    assert(uuid_lookup(ix.uuids, ents[j].identifier.uuid) == Some(j));
                }
            }
            match id.pk {
                Some(pk) => {
                    lemma_pk_lookup_index(ix.pks, id.model, pk);
                    match pk_lookup(ix.pks, id.model, pk) {
                        Some(h) => {
                            let k = choose|k: int|
                                0 <= k < ix.pks.len() && (#[trigger] ix.pks[k]).model == id.model
                                    && ix.pks[k].pk == pk && ix.pks[k].handle == h;
                            assert(has_model_pk(ents, id.model, pk, h));
                            assert(identifies(ents, id, h));
                        },
                        None => {
                            assert forall|i: int| !#[trigger] identifies(ents, id, i) by {
                                if has_model_pk(ents, id.model, pk, i) {
                                    assert(pk_lookup(
                                        ix.pks,
                                        ents[i].identifier.model,
                                        ents[i].identifier.pk.unwrap(),
                                    ) == Some(i));
                                }
                            }
                        },
                    }
                },
                None => {
                    assert forall|i: int| !#[trigger] identifies(ents, id, i) by {}
                },
            }
        },
    }
}

/// Deduplication law: in a well-formed store an identifier resolves to at
/// most one handle, so a second `instantiate_entity` or `add_entity` with
/// an equal identifier returns the handle of the first and leaves the
/// store unchanged, whatever descriptors it was given.
pub proof fn lemma_identifies_unique(s: &EntityStore, id: IdentifierView, h: int, i: int)
    requires
        s.wf(),
        identifies(s@.entities, id, h),
        identifies(s@.entities, id, i),
    ensures
        i == h,
{
    let ents = s@.entities;
    if has_uuid(ents, id.uuid, h) && has_uuid(ents, id.uuid, i) {
        assert(uuid_lookup(s.index@.uuids, ents[h].identifier.uuid) == Some(h));
        assert(uuid_lookup(s.index@.uuids, ents[i].identifier.uuid) == Some(i));
    } else if !(exists|j: int| has_uuid(ents, id.uuid, j)) {
        let pk = id.pk.unwrap();
        assert(has_model_pk(ents, id.model, pk, h));
        assert(has_model_pk(ents, id.model, pk, i));
        assert(pk_lookup(s.index@.pks, ents[h].identifier.model, pk) == Some(h));
        assert(pk_lookup(s.index@.pks, ents[i].identifier.model, pk) == Some(i));
    }
}

/// Repeated lookups agree: any two results that `get` can return for the
/// same store and identifier succeed together and carry the same handle.
pub proof fn lemma_get_repeatable(
    s: &EntityStore,
    identifier: &EntityIdentifier,
    r1: Result<EntityHandle, EntityError>,
    r2: Result<EntityHandle, EntityError>,
)
    requires
        s.wf(),
        call_ensures(EntityStore::get, (s, identifier), r1),
        call_ensures(EntityStore::get, (s, identifier), r2),
    ensures
        r1 is Ok <==> r2 is Ok,
        r1 is Ok ==> r1.unwrap() == r2.unwrap(),
{
    if r1 is Ok && r2 is Ok {
        lemma_identifies_unique(s, identifier@, r1.unwrap() as int, r2.unwrap() as int);
    }
}

/// Index idempotence law: in a well-formed store, every entity's own
/// identifier resolves to exactly that entity's handle, so `get` on the
/// identifier of a handle returns that handle, on every call.
pub proof fn lemma_index_roundtrip(s: &EntityStore, h: int)
    requires
        s.wf(),
        0 <= h < s@.entities.len(),
    ensures
        identifies(s@.entities, s@.entities[h].identifier, h),
        forall|i: int| #[trigger] identifies(s@.entities, s@.entities[h].identifier, i) ==> i == h,
{
    assert(has_uuid(s@.entities, s@.entities[h].identifier.uuid, h));
    assert forall|i: int|
        #[trigger] identifies(s@.entities, s@.entities[h].identifier, i) implies i == h by {
        lemma_identifies_unique(s, s@.entities[h].identifier, h, i);
    }
}

} // verus!
