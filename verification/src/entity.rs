//! The temporal attribute model: epoch cursors, tagged scalar values and
//! per-attribute value histories with point-in-time reads, together with
//! entity identifiers and entities.

use vstd::prelude::*;

use crate::errors::{EntityError, ErrorView};

verus! {

/// A logical time point. Histories are indexed by epochs; epochs may move
/// forward or backward, no monotonicity is assumed.
pub type Epoch = i64;

/// The name of a model, grouping entities of the same logical kind.
pub type Model = String;

/// A persisted primary key.
pub type PK = i64;

// ---------------------------------------------------------------------------
// Epoch cursors
// ---------------------------------------------------------------------------

/// A movable epoch cursor. Many attributes observe the same cursor; the store
/// owns its two cursors and readers pass a cursor by reference at read time,
/// so sliding a cursor is immediately visible to every attribute bound to it.
pub struct EpochPtr {
    epoch: Epoch,
}

impl EpochPtr {
    /// The epoch the cursor currently points at.
    pub closed spec fn spec_epoch(&self) -> Epoch {
        self.epoch
    }

    /// Move the cursor to `epoch`.
    pub fn slide(&mut self, epoch: Epoch)
        ensures
            final(self).spec_epoch() == epoch,
    {
        self.epoch = epoch;
    }

    /// Read the epoch the cursor points at.
    pub fn get_epoch(&self) -> (r: Epoch)
        ensures
            r == self.spec_epoch(),
    {
        self.epoch
    }
}

impl Default for EpochPtr {
    /// A fresh cursor starts at epoch 0.
    fn default() -> (r: Self)
        ensures
            r.spec_epoch() == 0,
    {
        EpochPtr { epoch: 0 }
    }
}

// ---------------------------------------------------------------------------
// Values
// ---------------------------------------------------------------------------

/// The mathematical model of a [`DatabaseValue`]: text as a sequence of
/// characters, numbers as integers, and a distinguished null value.
#[verifier::ext_equal]
pub enum ValueView {
    Str(Seq<char>),
    Num(i64),
    Null,
}

/// A tagged scalar value stored in an attribute history.
#[derive(Debug)]
pub enum DatabaseValue {
    String(String),
    Number(i64),
    Null,
}

impl View for DatabaseValue {
    type V = ValueView;

    open spec fn view(&self) -> ValueView {
        match self {
            DatabaseValue::String(s) => ValueView::Str(s@),
            DatabaseValue::Number(n) => ValueView::Num(*n),
            DatabaseValue::Null => ValueView::Null,
        }
    }
}

impl PartialEq for DatabaseValue {
    /// Structural equality: two `Null`s are equal, `Null` never equals a
    /// non-`Null` variant, and like variants compare their payloads.
    fn eq(&self, other: &Self) -> (r: bool) {
        match (self, other) {
            (DatabaseValue::Null, DatabaseValue::Null) => true,
            (DatabaseValue::String(a), DatabaseValue::String(b)) => *a == *b,
            (DatabaseValue::Number(a), DatabaseValue::Number(b)) => *a == *b,
            _ => false,
        }
    }
}

impl vstd::std_specs::cmp::PartialEqSpecImpl for DatabaseValue {
    open spec fn obeys_eq_spec() -> bool {
        true
    }

    open spec fn eq_spec(&self, other: &Self) -> bool {
        self@ == other@
    }
}

impl Clone for DatabaseValue {
    fn clone(&self) -> (r: Self)
        ensures
            r == *self,
    {
        match self {
            DatabaseValue::String(s) => DatabaseValue::String(s.clone()),
            DatabaseValue::Number(n) => DatabaseValue::Number(*n),
            DatabaseValue::Null => DatabaseValue::Null,
        }
    }
}

// ---------------------------------------------------------------------------
// Attribute histories
// ---------------------------------------------------------------------------

/// The mathematical model of one history record: the epoch at which a value
/// was recorded, and the value.
#[verifier::ext_equal]
pub struct HistoryEntryView {
    pub epoch: Epoch,
    pub value: ValueView,
}

/// One record of an attribute history.
#[derive(Debug)]
struct AttributeValue {
    epoch: Epoch,
    value: DatabaseValue,
}

impl View for AttributeValue {
    type V = HistoryEntryView;

    closed spec fn view(&self) -> HistoryEntryView {
        HistoryEntryView { epoch: self.epoch, value: self.value@ }
    }
}

/// A history is kept in non-decreasing epoch order.
pub open spec fn sorted_history(h: Seq<HistoryEntryView>) -> bool {
    forall|i: int, j: int| 0 <= i < j < h.len() ==> h[i].epoch <= h[j].epoch
}

/// The value a history reports at epoch `e`: the value of the last record
/// whose epoch is at most `e`, or the earliest record's value if `e`
/// precedes the whole history (the documented clamping behaviour).
pub open spec fn value_at(h: Seq<HistoryEntryView>, e: int) -> ValueView
    recommends
        h.len() > 0,
    decreases h.len(),
{
    if h.len() == 0 {
        ValueView::Null
    } else if h.last().epoch <= e {
        h.last().value
    } else if h.len() == 1 {
        h[0].value
    } else {
        value_at(h.drop_last(), e)
    }
}

/// Where a record with epoch `e` is inserted: before the first record with a
/// strictly greater epoch, hence after every record with the same epoch.
pub open spec fn insert_pos(h: Seq<HistoryEntryView>, e: int) -> int
    decreases h.len(),
{
    if h.len() == 0 {
        0
    } else if h[0].epoch > e {
        0
    } else {
        1 + insert_pos(h.skip(1), e)
    }
}

/// A history after recording `entry`: inserted at its stable position.
pub open spec fn insert_entry(h: Seq<HistoryEntryView>, entry: HistoryEntryView) -> Seq<
    HistoryEntryView,
> {
    h.insert(insert_pos(h, entry.epoch as int), entry)
}

/// The insertion position is within bounds, everything before it has an
/// epoch at most `e` and everything from it on has a strictly greater epoch.
pub proof fn lemma_insert_pos_bounds(h: Seq<HistoryEntryView>, e: int)
    ensures
        0 <= insert_pos(h, e) <= h.len(),
        forall|j: int| 0 <= j < insert_pos(h, e) ==> h[j].epoch <= e,
        sorted_history(h) ==> forall|j: int|
            insert_pos(h, e) <= j < h.len() ==> h[j].epoch > e,
    decreases h.len(),
{
    if h.len() > 0 && h[0].epoch <= e {
        lemma_insert_pos_bounds(h.skip(1), e);
        assert forall|j: int| 0 <= j < insert_pos(h, e) implies h[j].epoch <= e by {
            if j > 0 {
                assert(h.skip(1)[j - 1] == h[j]);
            }
        }
        if sorted_history(h) {
            assert forall|j: int| insert_pos(h, e) <= j < h.len() implies h[j].epoch > e by {
                assert(h.skip(1)[j - 1] == h[j]);
            }
        }
    }
}

/// Recording a value keeps the history sorted.
pub proof fn lemma_insert_entry_sorted(h: Seq<HistoryEntryView>, entry: HistoryEntryView)
    requires
        sorted_history(h),
    ensures
        sorted_history(insert_entry(h, entry)),
{
    lemma_insert_pos_bounds(h, entry.epoch as int);
    let p = insert_pos(h, entry.epoch as int);
    let h2 = insert_entry(h, entry);
    assert forall|i: int, j: int| 0 <= i < j < h2.len() implies h2[i].epoch <= h2[j].epoch by {
        assert(i < p ==> h2[i] == h[i]);
        assert(p < i ==> h2[i] == h[i - 1]);
        assert(j < p ==> h2[j] == h[j]);
        assert(p < j ==> h2[j] == h[j - 1]);
    }
}

/// The history-ordering law: in a sorted history, a point-in-time read at
/// epoch `e` returns the value of the record at index `i` whenever that
/// record is the last one with an epoch at most `e`.
pub proof fn lemma_history_ordering(h: Seq<HistoryEntryView>, e: int, i: int)
    requires
        sorted_history(h),
        0 <= i < h.len(),
        h[i].epoch <= e,
        i == h.len() - 1 || h[i + 1].epoch > e,
    ensures
        value_at(h, e) == h[i].value,
    decreases h.len(),
{
    if i < h.len() - 1 {
        lemma_history_ordering(h.drop_last(), e, i);
    }
}

/// The last write wins: right after a value is recorded at some epoch, a
/// read at that epoch reports the recorded value, also when older records
/// carry the same epoch.
pub proof fn lemma_last_write_wins(h: Seq<HistoryEntryView>, entry: HistoryEntryView)
    requires
        sorted_history(h),
    ensures
        value_at(insert_entry(h, entry), entry.epoch as int) == entry.value,
{
    let e = entry.epoch as int;
    let p = insert_pos(h, e);
    let h2 = insert_entry(h, entry);
    lemma_insert_pos_bounds(h, e);
    lemma_insert_entry_sorted(h, entry);
    h.insert_ensures(p, entry);
    assert(h2[p] == entry);
    assert(p < h2.len() - 1 ==> h2[p + 1] == h[p] && h[p].epoch > e);
    lemma_history_ordering(h2, e, p);
}

/// The clamping law: if every record's epoch is after `e`, a read at `e`
/// reports the earliest record's value.
pub proof fn lemma_value_at_clamped(h: Seq<HistoryEntryView>, e: int)
    requires
        h.len() > 0,
        forall|j: int| 0 <= j < h.len() ==> h[j].epoch > e,
    ensures
        value_at(h, e) == h[0].value,
    decreases h.len(),
{
    if h.len() > 1 {
        lemma_value_at_clamped(h.drop_last(), e);
    }
}

// ---------------------------------------------------------------------------
// Temporal attributes
// ---------------------------------------------------------------------------

/// The capability every attribute kind offers: read the value at the epoch
/// of a cursor, and record a value at an arbitrary epoch.
pub trait BaseEntityAttribute {
    /// The recorded history, as a sequence of (epoch, value) records in
    /// non-decreasing epoch order.
    spec fn history(&self) -> Seq<HistoryEntryView>;

    /// The value at the epoch the initial cursor points at.
    fn get_initial(&self, initial_ptr: &EpochPtr) -> (r: DatabaseValue)
        requires
            self.history().len() > 0,
            sorted_history(self.history()),
        ensures
            r@ == value_at(self.history(), initial_ptr.spec_epoch() as int),
    ;

    /// The value at the epoch the current cursor points at.
    fn get_value(&self, current_ptr: &EpochPtr) -> (r: DatabaseValue)
        requires
            self.history().len() > 0,
            sorted_history(self.history()),
        ensures
            r@ == value_at(self.history(), current_ptr.spec_epoch() as int),
    ;

    /// Record `value` at `epoch`.
    fn set_value(&mut self, value: DatabaseValue, epoch: Epoch)
        requires
            sorted_history(old(self).history()),
        ensures
            final(self).history() == insert_entry(
                old(self).history(),
                HistoryEntryView { epoch, value: value@ },
            ),
            sorted_history(final(self).history()),
    ;
}

/// An attribute usable by an entity.
pub trait EntityAttribute: BaseEntityAttribute {

}

impl<T: BaseEntityAttribute> EntityAttribute for T {

}

/// A plain scalar attribute: an ordered history of (epoch, value) records.
#[derive(Debug)]
pub struct PhysicalAttribute {
    value_history: Vec<AttributeValue>,
}

impl View for PhysicalAttribute {
    type V = Seq<HistoryEntryView>;

    closed spec fn view(&self) -> Seq<HistoryEntryView> {
        self.value_history@.map_values(|a: AttributeValue| a@)
    }
}

impl PhysicalAttribute {
    /// A fresh attribute with an empty history. It may not be read before a
    /// first value has been recorded.
    pub fn new() -> (r: Self)
        ensures
            r@ == Seq::<HistoryEntryView>::empty(),
    {
        let r = PhysicalAttribute { value_history: Vec::new() };
        assert(r@ =~= Seq::<HistoryEntryView>::empty());
        r
    }

    /// The value at epoch `epoch`: the last record with an epoch at most
    /// `epoch`, or the earliest record if `epoch` precedes the history.
    pub fn get_at_epoch(&self, epoch: Epoch) -> (r: DatabaseValue)
        requires
            self@.len() > 0,
        ensures
            r@ == value_at(self@, epoch as int),
    {
        let n = self.value_history.len();
        assert(self@.take(n as int) =~= self@);
        let mut i: usize = n;
        while i > 0
            invariant
                0 <= i <= n,
                n == self@.len() > 0,
                forall|j: int| i <= j < n ==> self@[j].epoch > epoch,
                i > 0 ==> value_at(self@, epoch as int) == value_at(
                    self@.take(i as int),
                    epoch as int,
                ),
            decreases i,
        {
            let entry = &self.value_history[i - 1];
            assert(entry@ == self@[i - 1]);
            if entry.epoch <= epoch {
                assert(self@.take(i as int).last() == self@[i - 1]);
                return entry.value.clone();
            }
            proof {
                if i > 1 {
                    assert(self@.take(i as int).drop_last() =~= self@.take(i as int - 1));
                }
            }
            i = i - 1;
        }
        proof {
            lemma_value_at_clamped(self@, epoch as int);
        }
        let first = &self.value_history[0];
        assert(first@ == self@[0]);
        first.value.clone()
    }

    /// Record `value` at `epoch`: it is inserted before the first record
    /// with a strictly greater epoch, so among records with equal epochs the
    /// newest insertion comes last and wins the point-in-time read.
    pub fn insert_at_epoch(&mut self, value: DatabaseValue, epoch: Epoch)
        ensures
            final(self)@ == insert_entry(
                old(self)@,
                HistoryEntryView { epoch, value: value@ },
            ),
    {
        let n = self.value_history.len();
        let mut pos: usize = 0;
        while pos < n
            invariant
                0 <= pos <= n,
                n == self@.len(),
                *self == *old(self),
                forall|j: int| 0 <= j < pos ==> self@[j].epoch <= epoch,
                pos > 0 ==> insert_pos(self@, epoch as int) == pos + insert_pos(
                    self@.skip(pos as int),
                    epoch as int,
                ),
            ensures
                0 <= pos <= n,
                *self == *old(self),
                insert_pos(self@, epoch as int) == pos as int,
            decreases n - pos,
        {
            let hist = &self.value_history[pos];
            assert(hist@ == self@[pos as int]);
            proof {
                if pos > 0 {
                    assert(self@.skip(pos as int)[0] == self@[pos as int]);
                }
            }
            if hist.epoch > epoch {
                proof {
                    if pos > 0 {
                        assert(insert_pos(self@.skip(pos as int), epoch as int) == 0);
                    }
                }
                break ;
            }
            proof {
                if pos > 0 {
                    assert(self@.skip(pos as int).skip(1) =~= self@.skip(pos as int + 1));
                }
            }
            pos = pos + 1;
        }
        proof {
            if pos == n {
                if n > 0 {
                    assert(self@.skip(n as int).len() == 0);
                }
                assert(insert_pos(self@, epoch as int) == n as int);
            }
        }
        let ghost entry = HistoryEntryView { epoch, value: value@ };
        let ghost prev = self.value_history@;
        let record = AttributeValue { epoch, value };
        let ghost rec = record;
        proof {
            assert(rec@ == entry);
            prev.insert_ensures(pos as int, rec);
            old(self)@.insert_ensures(pos as int, entry);
        }
        self.value_history.insert(pos, record);
        proof {
            let target = insert_entry(old(self)@, entry);
            let newv = self.value_history@;
            assert(newv == prev.insert(pos as int, rec));
            assert forall|k: int| 0 <= k < self@.len() implies self@[k] == target[k] by {
                assert(self@[k] == newv[k]@);
                if k < pos {
                    assert(newv[k] == prev[k]);
                    assert(target[k] == old(self)@[k]);
                } else if k == pos {
                    assert(newv[k] == rec);
                    assert(target[k] == entry);
                } else {
                    assert(newv[k] == prev[k - 1]);
                    assert(target[k] == old(self)@[k - 1]);
                }
            }
            assert(self@ =~= target);
        }
    }
}

impl BaseEntityAttribute for PhysicalAttribute {
    open spec fn history(&self) -> Seq<HistoryEntryView> {
        self@
    }

    fn get_initial(&self, initial_ptr: &EpochPtr) -> (r: DatabaseValue) {
        self.get_at_epoch(initial_ptr.get_epoch())
    }

    fn get_value(&self, current_ptr: &EpochPtr) -> (r: DatabaseValue) {
        self.get_at_epoch(current_ptr.get_epoch())
    }

    fn set_value(&mut self, value: DatabaseValue, epoch: Epoch) {
        proof {
            lemma_insert_entry_sorted(
                self@,
                HistoryEntryView { epoch, value: value@ },
            );
        }
        self.insert_at_epoch(value, epoch);
    }
}

// ---------------------------------------------------------------------------
// Entity identifiers
// ---------------------------------------------------------------------------

/// Relies on `uuid::Uuid::new_v4` to mint a fresh random UUID, read out as
/// its 128-bit value. Nothing is assumed of the result: it is random, so the
/// logic treats every outcome alike and never depends on freshness.
#[verifier::external_body]
fn fresh_uuid() -> u128 {
    uuid::Uuid::new_v4().as_u128()
}

/// The mathematical model of an [`EntityIdentifier`].
pub struct IdentifierView {
    pub model: Seq<char>,
    pub pk: Option<PK>,
    pub uuid: u128,
}

/// Identifier equality: equal UUIDs always identify the same entity; with
/// distinct UUIDs, two identifiers are equal iff both carry a primary key
/// and their models and primary keys agree.
pub open spec fn id_eq(a: IdentifierView, b: IdentifierView) -> bool {
    ||| a.uuid == b.uuid
    ||| (a.pk is Some && b.pk is Some && a.model == b.model && a.pk == b.pk)
}

/// The identifier-equality law: UUID equality alone makes two identifiers
/// equal; for identifiers with distinct UUIDs, equality holds exactly when
/// both carry a primary key and their models and primary keys agree.
pub proof fn lemma_identifier_equality(a: IdentifierView, b: IdentifierView)
    ensures
        a.uuid == b.uuid ==> id_eq(a, b),
        a.uuid != b.uuid ==> (id_eq(a, b) <==> (a.pk is Some && b.pk is Some && a.model == b.model
            && a.pk == b.pk)),
        id_eq(a, b) == id_eq(b, a),
        id_eq(a, a),
{
}

/// Names an entity within a store: a model name, an optional persisted
/// primary key, and a process-local UUID minted at construction.
#[derive(Debug)]
pub struct EntityIdentifier {
    model: Model,
    pk: Option<PK>,
    uuid: u128,
}

impl View for EntityIdentifier {
    type V = IdentifierView;

    closed spec fn view(&self) -> IdentifierView {
        IdentifierView { model: self.model@, pk: self.pk, uuid: self.uuid }
    }
}

impl PartialEq for EntityIdentifier {
    fn eq(&self, other: &Self) -> (r: bool) {
        if self.uuid == other.uuid {
            return true;
        }
        self.has_applied_pk() && other.has_applied_pk() && self.model == other.model
            && pk_values_eq(&self.pk, &other.pk)
    }
}

impl vstd::std_specs::cmp::PartialEqSpecImpl for EntityIdentifier {
    open spec fn obeys_eq_spec() -> bool {
        true
    }

    open spec fn eq_spec(&self, other: &Self) -> bool {
        id_eq(self@, other@)
    }
}

/// Structural equality of two optional primary keys.
fn pk_values_eq(a: &Option<PK>, b: &Option<PK>) -> (r: bool)
    ensures
        r == (a == b),
{
    match (a, b) {
        (Some(x), Some(y)) => x == y,
        (None, None) => true,
        _ => false,
    }
}

impl Clone for EntityIdentifier {
    fn clone(&self) -> (r: Self)
        ensures
            r@ == self@,
    {
        EntityIdentifier { model: self.model.clone(), pk: self.pk, uuid: self.uuid }
    }
}

impl EntityIdentifier {
    /// A caller-minted identifier: fresh UUID, no primary key yet.
    pub fn new(model: Model) -> (r: EntityIdentifier)
        ensures
            r@.model == model@,
            r@.pk is None,
    {
        EntityIdentifier { model, pk: None, uuid: fresh_uuid() }
    }

    /// An identifier for an entity loaded from persistence: fresh UUID and
    /// the persisted primary key.
    pub fn new_persisted(model: Model, pk: PK) -> (r: EntityIdentifier)
        ensures
            r@.model == model@,
            r@.pk == Some(pk),
    {
        EntityIdentifier { model, pk: Some(pk), uuid: fresh_uuid() }
    }

    /// The process-local UUID, as its 128-bit value.
    pub fn get_uuid(&self) -> (r: u128)
        ensures
            r == self@.uuid,
    {
        self.uuid
    }

    /// The model name this identifier belongs to.
    pub fn get_model(&self) -> (r: &Model)
        ensures
            r@ == self@.model,
    {
        &self.model
    }

    /// Whether a primary key has been applied.
    pub fn has_applied_pk(&self) -> (r: bool)
        ensures
            r == (self@.pk is Some),
    {
        self.pk.is_some()
    }

    /// The applied primary key, or `UnpersistedEntity` if none was applied.
    pub fn get_applied_pk(&self) -> (r: Result<PK, EntityError>)
        ensures
            match r {
                Ok(pk) => self@.pk == Some(pk),
                Err(e) => self@.pk is None && e@ == ErrorView::UnpersistedEntity(self@),
            },
    {
        match self.pk {
            None => Err(EntityError::UnpersistedEntity(self.clone())),
            Some(pk) => Ok(pk),
        }
    }

    /// Install a primary key after the entity was committed. The identifier
    /// index of a store does not pick up late-assigned keys: the key must be
    /// applied before the identifier is handed to a store.
    pub fn set_applied_pk(&mut self, pk: PK)
        ensures
            final(self)@ == (IdentifierView { pk: Some(pk), ..old(self)@ }),
    {
        self.pk = Some(pk);
    }
}


// ---------------------------------------------------------------------------
// Attribute descriptors
// ---------------------------------------------------------------------------

/// The kind of attribute a descriptor asks for. Relational (`ManyToMany`)
/// attributes are not implemented by this core: constructing one is a
/// contract violation of the caller.
#[derive(Clone, Debug)]
pub enum AttributeKind {
    Physical,
    ManyToMany,
}

/// The mathematical model of an [`AttributeDescriptor`].
pub struct DescriptorView {
    pub kind: AttributeKind,
    pub name: Seq<char>,
    pub initial: ValueView,
}

/// Describes one attribute of an entity under construction: its kind, its
/// name and the value it is seeded with at the initial epoch.
#[derive(Clone, Debug)]
pub struct AttributeDescriptor {
    kind: AttributeKind,
    name: String,
    initial: DatabaseValue,
}

impl View for AttributeDescriptor {
    type V = DescriptorView;

    closed spec fn view(&self) -> DescriptorView {
        DescriptorView { kind: self.kind, name: self.name@, initial: self.initial@ }
    }
}

impl AttributeDescriptor {
    pub fn new(kind: AttributeKind, name: String, initial: DatabaseValue) -> (r: Self)
        ensures
            r@ == (DescriptorView { kind, name: name@, initial: initial@ }),
    {
        AttributeDescriptor { kind, name, initial }
    }
}

/// The models of a sequence of descriptors.
pub open spec fn descriptor_views(s: Seq<AttributeDescriptor>) -> Seq<DescriptorView> {
    s.map_values(|d: AttributeDescriptor| d@)
}

// ---------------------------------------------------------------------------
// Entities
// ---------------------------------------------------------------------------

/// The mathematical model of one named attribute of an entity.
#[verifier::ext_equal]
pub struct AttrEntryView {
    pub name: Seq<char>,
    pub history: Seq<HistoryEntryView>,
}

/// One named attribute of an entity.
#[derive(Debug)]
struct NamedAttribute {
    name: String,
    attribute: PhysicalAttribute,
}

impl View for NamedAttribute {
    type V = AttrEntryView;

    closed spec fn view(&self) -> AttrEntryView {
        AttrEntryView { name: self.name@, history: self.attribute@ }
    }
}

/// The index of the first attribute with the given name, if any.
pub open spec fn attr_index_of(attrs: Seq<AttrEntryView>, name: Seq<char>) -> Option<int>
    decreases attrs.len(),
{
    if attrs.len() == 0 {
        None
    } else if attrs[0].name == name {
        Some(0)
    } else {
        match attr_index_of(attrs.skip(1), name) {
            Some(i) => Some(i + 1),
            None => None,
        }
    }
}

/// The history of the first attribute with the given name, if any.
pub open spec fn attr_lookup(attrs: Seq<AttrEntryView>, name: Seq<char>) -> Option<
    Seq<HistoryEntryView>,
> {
    match attr_index_of(attrs, name) {
        Some(i) => Some(attrs[i].history),
        None => None,
    }
}

/// What `attr_index_of` finds: a valid index carrying the name, with no
/// earlier occurrence; or a guarantee that the name occurs nowhere.
pub proof fn lemma_attr_index_of(attrs: Seq<AttrEntryView>, name: Seq<char>)
    ensures
        match attr_index_of(attrs, name) {
            Some(i) => 0 <= i < attrs.len() && attrs[i].name == name && forall|j: int|
                0 <= j < i ==> attrs[j].name != name,
            None => forall|j: int| 0 <= j < attrs.len() ==> attrs[j].name != name,
        },
    decreases attrs.len(),
{
    if attrs.len() > 0 && attrs[0].name != name {
        lemma_attr_index_of(attrs.skip(1), name);
        assert forall|j: int| 0 <= j < attrs.len() && j >= 1 implies attrs[j]
            == attrs.skip(1)[j - 1] by {}
    }
}

/// The first occurrence determines `attr_index_of`: if nothing before `i`
/// carries the name, the search stops exactly at `i`, or reports the name
/// absent when the whole sequence was passed.
proof fn lemma_attr_index_of_first(attrs: Seq<AttrEntryView>, name: Seq<char>, i: int)
    requires
        0 <= i <= attrs.len(),
        forall|j: int| 0 <= j < i ==> attrs[j].name != name,
        i < attrs.len() ==> attrs[i].name == name,
    ensures
        i < attrs.len() ==> attr_index_of(attrs, name) == Some(i),
        i == attrs.len() ==> attr_index_of(attrs, name) is None,
    decreases attrs.len(),
{
    if attrs.len() > 0 && i > 0 {
        assert forall|j: int| 0 <= j < i - 1 implies attrs.skip(1)[j].name != name by {
            assert(attrs.skip(1)[j] == attrs[j + 1]);
        }
        assert(i - 1 < attrs.skip(1).len() ==> attrs.skip(1)[i - 1].name == name);
        lemma_attr_index_of_first(attrs.skip(1), name, i - 1);
    }
}

/// The mathematical model of an [`Entity`]: its identifier and its named
/// attributes, in the order they were installed.
#[verifier::ext_equal]
pub struct EntityView {
    pub identifier: IdentifierView,
    pub attrs: Seq<AttrEntryView>,
}

/// Every history in a well-formed attribute sequence is non-empty (each
/// attribute is seeded at construction) and sorted by epoch.
pub open spec fn attrs_wf(attrs: Seq<AttrEntryView>) -> bool {
    forall|k: int|
        0 <= k < attrs.len() ==> (#[trigger] attrs[k]).history.len() > 0 && sorted_history(
            attrs[k].history,
        )
}

/// A well-formed entity has well-formed attributes.
pub open spec fn entity_wf(e: EntityView) -> bool {
    attrs_wf(e.attrs)
}

/// The attributes an entity is born with: one seeded history per descriptor,
/// a later descriptor of the same name replacing the earlier one.
pub open spec fn seed_attrs(descs: Seq<DescriptorView>, e0: Epoch) -> Seq<AttrEntryView>
    decreases descs.len(),
{
    if descs.len() == 0 {
        Seq::empty()
    } else {
        let prior = seed_attrs(descs.drop_last(), e0);
        let d = descs.last();
        let entry = AttrEntryView {
            name: d.name,
            history: seq![HistoryEntryView { epoch: e0, value: d.initial }],
        };
        match attr_index_of(prior, d.name) {
            Some(i) => prior.update(i, entry),
            None => prior.push(entry),
        }
    }
}

/// An entity: an identifier plus named temporal attributes, fixed at
/// construction.
#[derive(Debug)]
pub struct Entity {
    identifier: EntityIdentifier,
    physical_attributes: Vec<NamedAttribute>,
}

impl View for Entity {
    type V = EntityView;

    closed spec fn view(&self) -> EntityView {
        EntityView {
            identifier: self.identifier@,
            attrs: self.physical_attributes@.map_values(|a: NamedAttribute| a@),
        }
    }
}

impl PartialEq for Entity {
    /// Two entities are equal iff their identifiers are equal.
    fn eq(&self, other: &Self) -> (r: bool) {
        self.identifier == other.identifier
    }
}

impl vstd::std_specs::cmp::PartialEqSpecImpl for Entity {
    open spec fn obeys_eq_spec() -> bool {
        true
    }

    open spec fn eq_spec(&self, other: &Self) -> bool {
        id_eq(self@.identifier, other@.identifier)
    }
}

/// The first index in `attrs` whose name equals `name`, as `attr_index_of`
/// reports it over the attribute models.
fn find_attr(attrs: &Vec<NamedAttribute>, name: &String) -> (r: Option<usize>)
    ensures
        match r {
            Some(i) => attr_index_of(
                attrs@.map_values(|a: NamedAttribute| a@),
                name@,
            ) == Some(i as int),
            None => attr_index_of(attrs@.map_values(|a: NamedAttribute| a@), name@) is None,
        },
{
    let ghost views = attrs@.map_values(|a: NamedAttribute| a@);
    let n = attrs.len();
    let mut i: usize = 0;
    while i < n
        invariant
            0 <= i <= n,
            n == attrs@.len(),
            views == attrs@.map_values(|a: NamedAttribute| a@),
            forall|j: int| 0 <= j < i ==> (#[trigger] views[j]).name != name@,
        decreases n - i,
    {
        let named = &attrs[i];
        assert(named@ == views[i as int]);
        if named.name == *name {
            proof {
                lemma_attr_index_of_first(views, name@, i as int);
            }
            return Some(i);
        }
        i = i + 1;
    }
    proof {
        lemma_attr_index_of_first(views, name@, n as int);
    }
    None
}

impl Entity {
    /// A well-formed entity: see [`entity_wf`].
    pub open spec fn wf(&self) -> bool {
        entity_wf(self@)
    }

    /// Build an entity from an identifier and attribute descriptors: every
    /// descriptor yields an attribute seeded with its initial value at the
    /// epoch the initial cursor points at. Only `Physical` descriptors are
    /// implemented; a `ManyToMany` descriptor is a contract violation.
    pub fn new(
        identifier: EntityIdentifier,
        attributes: Vec<AttributeDescriptor>,
        initial_ptr: &EpochPtr,
    ) -> (r: Entity)
        requires
            forall|k: int|
                0 <= k < attributes@.len() ==> (#[trigger] attributes@[k])@.kind is Physical,
        ensures
            r@.identifier == identifier@,
            r@.attrs == seed_attrs(descriptor_views(attributes@), initial_ptr.spec_epoch()),
            r.wf(),
    {
        let e0 = initial_ptr.get_epoch();
        let ghost descs = descriptor_views(attributes@);
        let n = attributes.len();
        let mut physicals: Vec<NamedAttribute> = Vec::new();
        assert(physicals@.map_values(|a: NamedAttribute| a@) =~= seed_attrs(
            descs.take(0),
            e0,
        ));
        let mut k: usize = 0;
        while k < n
            invariant
                0 <= k <= n,
                n == attributes@.len(),
                descs == descriptor_views(attributes@),
                forall|j: int|
                    0 <= j < attributes@.len() ==> (#[trigger] attributes@[j])@.kind is Physical,
                physicals@.map_values(|a: NamedAttribute| a@) == seed_attrs(descs.take(k as int), e0),
                attrs_wf(physicals@.map_values(|a: NamedAttribute| a@)),
            decreases n - k,
        {
            let ghost prior = physicals@.map_values(|a: NamedAttribute| a@);
            let descriptor = &attributes[k];
            assert(descriptor@ == descs[k as int]);
            match descriptor.kind {
                AttributeKind::ManyToMany => {
                    // excluded by the precondition: relational attributes
                    // are not implemented
                    proof {
                        assert(false);
                    }
                },
                AttributeKind::Physical => {
                    let mut attr = PhysicalAttribute::new();
                    attr.set_value(descriptor.initial.clone(), e0);
                    proof {
                        Seq::<HistoryEntryView>::empty().insert_ensures(
                            0,
                            HistoryEntryView { epoch: e0, value: descriptor@.initial },
                        );
                        assert(attr@ =~= seq![
                            HistoryEntryView { epoch: e0, value: descriptor@.initial },
                        ]);
                    }
                    let named = NamedAttribute { name: descriptor.name.clone(), attribute: attr };
                    let ghost entry = named@;
                    match find_attr(&physicals, &descriptor.name) {
                        Some(i) => {
                            proof {
                                lemma_attr_index_of(prior, descriptor@.name);
                            }
                            physicals.set(i, named);
                            assert(physicals@.map_values(|a: NamedAttribute| a@) =~= prior.update(
                                i as int,
                                entry,
                            ));
                            proof {
                                let cur = physicals@.map_values(|a: NamedAttribute| a@);
                                assert forall|j: int|
                                    0 <= j < cur.len() implies (#[trigger] cur[j]).history.len()
                                    > 0 && sorted_history(cur[j].history) by {
                                    if j != i {
                                        assert(cur[j] == prior[j]);
                                    } else {
                                        assert(cur[j] == entry);
                                    }
                                }
                            }
                        },
                        None => {
                            physicals.push(named);
                            assert(physicals@.map_values(|a: NamedAttribute| a@) =~= prior.push(
                                entry,
                            ));
                            proof {
                                let cur = physicals@.map_values(|a: NamedAttribute| a@);
                                assert forall|j: int|
                                    0 <= j < cur.len() implies (#[trigger] cur[j]).history.len()
                                    > 0 && sorted_history(cur[j].history) by {
                                    if j < prior.len() {
                                        assert(cur[j] == prior[j]);
                                    } else {
                                        assert(cur[j] == entry);
                                    }
                                }
                            }
                        },
                    }
                },
            }
            proof {
                assert(descs.take(k as int + 1).drop_last() =~= descs.take(k as int));
                assert(descs.take(k as int + 1).last() == descs[k as int]);
                assert(physicals@.map_values(|a: NamedAttribute| a@) == seed_attrs(
                    descs.take(k as int + 1),
                    e0,
                ));
            }
            k = k + 1;
        }
        proof {
            assert(descs.take(n as int) =~= descs);
        }
        Entity { identifier, physical_attributes: physicals }
    }

    /// A shared view of the named attribute, or `AttributeNotFound`.
    pub fn get(&self, attribute: &str) -> (r: Result<&PhysicalAttribute, EntityError>)
        ensures
            match r {
                Ok(attr) => attr_lookup(self@.attrs, attribute@) == Some(attr@),
                Err(e) => attr_lookup(self@.attrs, attribute@) is None && e@
                    == ErrorView::AttributeNotFound(attribute@),
            },
    {
        let key = attribute.to_owned();
        match find_attr(&self.physical_attributes, &key) {
            Some(i) => {
                proof {
                    lemma_attr_index_of(self@.attrs, attribute@);
                }
                let named = &self.physical_attributes[i];
                assert(named@ == self@.attrs[i as int]);
                Ok(&named.attribute)
            },
            None => Err(EntityError::AttributeNotFound(key)),
        }
    }

    /// Record `value` at `epoch` on the named attribute, or report
    /// `AttributeNotFound` and leave the entity unchanged.
    pub fn set_attribute_value(
        &mut self,
        attribute: &str,
        value: DatabaseValue,
        epoch: Epoch,
    ) -> (r: Result<(), EntityError>)
        requires
            old(self).wf(),
        ensures
            final(self).wf(),
            match r {
                Ok(_) => attr_index_of(old(self)@.attrs, attribute@) is Some && final(self)@
                    == with_recorded_value(old(self)@, attribute@, epoch, value@),
                Err(e) => attr_index_of(old(self)@.attrs, attribute@) is None && *final(self)
                    == *old(self) && e@ == ErrorView::AttributeNotFound(attribute@),
            },
    {
        let key = attribute.to_owned();
        match find_attr(&self.physical_attributes, &key) {
            Some(i) => {
                proof {
                    lemma_attr_index_of(self@.attrs, attribute@);
                }
                let ghost prior = self@.attrs;
                let mut named = self.physical_attributes.remove(i);
                named.attribute.set_value(value, epoch);
                self.physical_attributes.insert(i, named);
                proof {
                    let target = with_recorded_value(old(self)@, attribute@, epoch, value@);
                    assert forall|k: int|
                        0 <= k < self@.attrs.len() implies self@.attrs[k] == target.attrs[k] by {
                        assert(self.physical_attributes@ == old(
                            self,
                        ).physical_attributes@.remove(i as int).insert(i as int, named));
                        old(self).physical_attributes@.remove(i as int).insert_ensures(
                            i as int,
                            named,
                        );
                        old(self).physical_attributes@.remove_ensures(i as int);
                        if k < i {
                            assert(old(self).physical_attributes@.remove(i as int)[k] == old(
                                self,
                            ).physical_attributes@[k]);
                        } else if k > i {
                            assert(old(self).physical_attributes@.remove(i as int)[k - 1] == old(
                                self,
                            ).physical_attributes@[k]);
                        }
                    }
                    assert(self@.attrs =~= with_recorded_value(
                        old(self)@,
                        attribute@,
                        epoch,
                        value@,
                    ).attrs);
                }
                Ok(())
            },
            None => Err(EntityError::AttributeNotFound(key)),
        }
    }

    /// The identifier of this entity.
    pub fn get_identifier(&self) -> (r: &EntityIdentifier)
        ensures
            r@ == self@.identifier,
    {
        &self.identifier
    }
}

/// The model of an entity after recording `v` at `epoch` on the attribute
/// named `name`: that attribute's history grows by one record, everything
/// else is unchanged.
pub open spec fn with_recorded_value(
    e: EntityView,
    name: Seq<char>,
    epoch: Epoch,
    v: ValueView,
) -> EntityView
    recommends
        attr_index_of(e.attrs, name) is Some,
{
    let i = attr_index_of(e.attrs, name).unwrap();
    EntityView {
        identifier: e.identifier,
        attrs: e.attrs.update(
            i,
            AttrEntryView {
                name: e.attrs[i].name,
                history: insert_entry(e.attrs[i].history, HistoryEntryView { epoch, value: v }),
            },
        ),
    }
}

} // verus!

