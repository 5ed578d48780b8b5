//! The operations of the evaluator as traits, for code that is written
//! against them: what values can be combined to, and what an expression
//! makes and matches.
use crate::ast::{Expr, Functions};
use crate::error::RuntimeError;
use crate::interpret::found;
use crate::semantics;
use crate::value::{outcome, Value};
use crate::variables::Variables;
use vstd::prelude::*;

verus! {

/// Arithmetic on values.
pub trait Maths {
    fn add(&self, other: &Self) -> Result<Value, RuntimeError>;

    fn sub(&self, other: &Self) -> Result<Value, RuntimeError>;

    fn div(&self, other: &Self) -> Result<Value, RuntimeError>;
}

impl Maths for Value {
    fn add(&self, other: &Value) -> (r: Result<Value, RuntimeError>)
        ensures
            outcome(r) == self@.sum(other@),
    {
        self.add(other)
    }

    fn sub(&self, other: &Value) -> (r: Result<Value, RuntimeError>)
        ensures
            outcome(r) == self@.difference(other@),
    {
        self.sub(other)
    }

    fn div(&self, other: &Value) -> (r: Result<Value, RuntimeError>)
        ensures
            outcome(r) == self@.quotient(other@),
    {
        self.div(other)
    }
}

/// What is both a constructor and a pattern.
pub trait Structure {
    fn construct(&self, variables: &mut Variables, functions: &Functions, depth: usize) -> Result<
        Value,
        RuntimeError,
    >;

    fn destruct(
        &self,
        value: &Value,
        variables: &mut Variables,
        functions: &Functions,
        depth: usize,
    ) -> Result<Option<Value>, RuntimeError>;
}

impl Structure for Expr {
    fn construct(&self, variables: &mut Variables, functions: &Functions, depth: usize) -> (r:
        Result<Value, RuntimeError>)
        ensures
            (outcome(r), final(variables)@) == semantics::construct(
                *self,
                old(variables)@,
                semantics::program(functions@),
                depth as nat,
            ),
    {
        self.construct(variables, functions, depth)
    }

    fn destruct(
        &self,
        value: &Value,
        variables: &mut Variables,
        functions: &Functions,
        depth: usize,
    ) -> (r: Result<Option<Value>, RuntimeError>)
        ensures
            (found(r), final(variables)@) == semantics::destruct(
                *self,
                value@,
                old(variables)@,
                semantics::program(functions@),
                depth as nat,
            ),
    {
        self.destruct(value, variables, functions, depth)
    }
}

} // verus!
