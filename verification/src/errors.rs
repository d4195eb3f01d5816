//! The error taxonomy of the store: every recoverable failure is one of
//! these variants and is returned to the caller without side effects.

use vstd::prelude::*;

use crate::entity::{EntityIdentifier, IdentifierView};

verus! {

/// The mathematical model of an [`EntityError`].
pub enum ErrorView {
    AttributeNotFound(Seq<char>),
    EntityNotFound(IdentifierView),
    UnpersistedEntity(IdentifierView),
}

/// A recoverable failure of the store.
#[derive(Debug)]
pub enum EntityError {
    /// The entity has no attribute with the given name.
    AttributeNotFound(String),
    /// No entity with the given identifier is registered.
    EntityNotFound(EntityIdentifier),
    /// A primary key was requested of an identifier that has none.
    UnpersistedEntity(EntityIdentifier),
}

impl View for EntityError {
    type V = ErrorView;

    open spec fn view(&self) -> ErrorView {
        match self {
            EntityError::AttributeNotFound(name) => ErrorView::AttributeNotFound(name@),
            EntityError::EntityNotFound(id) => ErrorView::EntityNotFound(id@),
            EntityError::UnpersistedEntity(id) => ErrorView::UnpersistedEntity(id@),
        }
    }
}

/// Equality of error models: like variants with equal payloads, carried
/// identifiers compared with identifier equality (`id_eq`).
pub open spec fn err_eq(a: ErrorView, b: ErrorView) -> bool {
    match (a, b) {
        (ErrorView::AttributeNotFound(x), ErrorView::AttributeNotFound(y)) => x == y,
        (ErrorView::EntityNotFound(x), ErrorView::EntityNotFound(y)) => crate::entity::id_eq(x, y),
        (ErrorView::UnpersistedEntity(x), ErrorView::UnpersistedEntity(y)) => crate::entity::id_eq(
            x,
            y,
        ),
        _ => false,
    }
}

impl PartialEq for EntityError {
    fn eq(&self, other: &Self) -> (r: bool) {
        match (self, other) {
            (EntityError::AttributeNotFound(a), EntityError::AttributeNotFound(b)) => *a == *b,
            (EntityError::EntityNotFound(a), EntityError::EntityNotFound(b)) => *a == *b,
            (EntityError::UnpersistedEntity(a), EntityError::UnpersistedEntity(b)) => *a == *b,
            _ => false,
        }
    }
}

impl vstd::std_specs::cmp::PartialEqSpecImpl for EntityError {
    open spec fn obeys_eq_spec() -> bool {
        true
    }

    open spec fn eq_spec(&self, other: &Self) -> bool {
        err_eq(self@, other@)
    }
}

} // verus!
