//! Filter expressions: a composable predicate tree evaluated against an
//! entity at the current epoch. New variants are meant to be added to the
//! tree without touching the existing variants' evaluation.

use vstd::prelude::*;

use crate::entity::{
    attr_lookup, lemma_attr_index_of, value_at, BaseEntityAttribute, DatabaseValue, Entity,
    EntityView, Epoch, EpochPtr, ValueView,
};
use crate::errors::{EntityError, ErrorView};

verus! {

/// The mathematical model of a filter expression.
#[verifier::ext_equal]
pub enum ExprView {
    Exact(Seq<char>, ValueView),
}

/// The attribute name an expression reads.
pub open spec fn expr_attr(x: ExprView) -> Seq<char> {
    match x {
        ExprView::Exact(attribute, _) => attribute,
    }
}

/// Whether the entity defines the attribute the expression reads; an
/// expression evaluates only on entities that do.
pub open spec fn expr_defined(x: ExprView, e: EntityView) -> bool {
    attr_lookup(e.attrs, expr_attr(x)) is Some
}

/// Whether the entity matches the expression at epoch `cur`: for an exact
/// expression, its attribute's value at `cur` equals the expression's value.
pub open spec fn expr_matches(x: ExprView, e: EntityView, cur: Epoch) -> bool
    recommends
        expr_defined(x, e),
{
    match x {
        ExprView::Exact(attribute, v) => value_at(
            attr_lookup(e.attrs, attribute).unwrap(),
            cur as int,
        ) == v,
    }
}

/// Whether expression `a` contains expression `b`, that is, `b` is
/// logically a subset of `a`. An exact expression contains exactly the
/// exact expression with the same attribute and the same value.
pub open spec fn expr_contains(a: ExprView, b: ExprView) -> bool {
    match a {
        ExprView::Exact(attribute, v) => b == ExprView::Exact(attribute, v),
    }
}

/// Containment is reflexive: every expression contains itself.
pub proof fn lemma_contains_reflexive(x: ExprView)
    ensures
        expr_contains(x, x),
{
}

/// Containment of exact expressions is symmetric: it coincides with
/// equality of attribute and value.
pub proof fn lemma_contains_symmetric(a: ExprView, b: ExprView)
    ensures
        expr_contains(a, b) == expr_contains(b, a),
{
}

/// A composable predicate tree. The only variant implemented so far is the
/// exact-match leaf.
pub enum FilterExpression {
    Exact(ExactExpression),
}

impl View for FilterExpression {
    type V = ExprView;

    open spec fn view(&self) -> ExprView {
        match self {
            FilterExpression::Exact(expression) => expression@,
        }
    }
}

/// Matches entities whose named attribute, read at the current epoch,
/// equals a fixed value.
#[derive(Clone)]
pub struct ExactExpression {
    attribute: String,
    value: DatabaseValue,
}

impl View for ExactExpression {
    type V = ExprView;

    closed spec fn view(&self) -> ExprView {
        ExprView::Exact(self.attribute@, self.value@)
    }
}

impl ExactExpression {
    pub fn new(attribute: String, value: DatabaseValue) -> (r: Self)
        ensures
            r@ == ExprView::Exact(attribute@, value@),
    {
        ExactExpression { attribute, value }
    }
}

/// What every expression variant offers: evaluation against an entity at
/// the current epoch, and containment of another expression.
pub trait ExpressionTrait {
    /// The model of this expression.
    spec fn expr(&self) -> ExprView;

    /// Evaluate this expression on `entity` at the epoch of `current_ptr`.
    /// Fails with `AttributeNotFound` iff the entity lacks the attribute
    /// the expression reads.
    fn match_entity(&self, entity: &Entity, current_ptr: &EpochPtr) -> (r: Result<
        bool,
        EntityError,
    >)
        requires
            entity.wf(),
        ensures
            match r {
                Ok(b) => expr_defined(self.expr(), entity@) && b == expr_matches(
                    self.expr(),
                    entity@,
                    current_ptr.spec_epoch(),
                ),
                Err(e) => !expr_defined(self.expr(), entity@) && e@ == ErrorView::AttributeNotFound(
                    expr_attr(self.expr()),
                ),
            },
    ;

    /// Whether `other` is logically a subset of this expression.
    fn contains(&self, other: &FilterExpression) -> (r: bool)
        ensures
            r == expr_contains(self.expr(), other@),
    ;
}

impl ExpressionTrait for ExactExpression {
    open spec fn expr(&self) -> ExprView {
        self@
    }

    fn contains(&self, other: &FilterExpression) -> (r: bool) {
        match other {
            FilterExpression::Exact(other_eq) => self.attribute == other_eq.attribute && self.value
                == other_eq.value,
        }
    }

    fn match_entity(&self, entity: &Entity, current_ptr: &EpochPtr) -> (r: Result<
        bool,
        EntityError,
    >) {
        let attr = match entity.get(self.attribute.as_str()) {
            Ok(attr) => attr,
            Err(e) => {
                return Err(e);
            },
        };
        proof {
            lemma_attr_index_of(entity@.attrs, self.attribute@);
        }
        let read = attr.get_value(current_ptr);
        Ok(read == self.value)
    }
}

impl From<ExactExpression> for FilterExpression {
    fn from(value: ExactExpression) -> (r: Self) {
        FilterExpression::Exact(value)
    }
}

impl vstd::std_specs::convert::FromSpecImpl<ExactExpression> for FilterExpression {
    open spec fn obeys_from_spec() -> bool {
        true
    }

    open spec fn from_spec(v: ExactExpression) -> Self {
        FilterExpression::Exact(v)
    }
}

/// Evaluate a filter expression on `entity` at the epoch of `current_ptr`,
/// dispatching on the variant.
pub fn match_entity(
    filter_expression: &FilterExpression,
    entity: &Entity,
    current_ptr: &EpochPtr,
) -> (r: Result<bool, EntityError>)
    requires
        entity.wf(),
    ensures
        match r {
            Ok(b) => expr_defined(filter_expression@, entity@) && b == expr_matches(
                filter_expression@,
                entity@,
                current_ptr.spec_epoch(),
            ),
            Err(e) => !expr_defined(filter_expression@, entity@) && e@
                == ErrorView::AttributeNotFound(expr_attr(filter_expression@)),
        },
{
    match filter_expression {
        FilterExpression::Exact(expression) => expression.match_entity(entity, current_ptr),
    }
}

} // verus!
