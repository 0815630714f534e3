//! Theory solvers.
pub mod euf;
pub mod lra;
pub mod lra_delta;
pub mod array;
pub mod string;
pub mod quantifier;
pub mod bv;
pub mod nla;
pub mod fp;

pub use array::ArraySolver;
pub use euf::EufSolver;
pub use lra::LraSolver;
pub use nla::NlaSolver;
pub use quantifier::QuantifierSolver;
pub use string::StringSolver;
pub use fp::FpSolver;

use vstd::prelude::*;
use crate::ast::{Expr, ModelValue};

verus! {

/// What the core asks of a theory solver: constraints are added, checked for consistency,
/// explained on a conflict (the subset of the constraints that causes it), and asked for
/// the model value of a term.
pub trait TheorySolver {
    /// The solver's own well-formedness, kept by every operation.
    spec fn inv(&self) -> bool;

    /// Adds a constraint.
    fn assert_expr(&mut self, expr: &Expr)
        requires
            old(self).inv(),
        ensures
            final(self).inv();

    /// Whether the constraints added so far are consistent.
    fn check(&mut self) -> (r: bool)
        requires
            old(self).inv(),
        ensures
            final(self).inv();

    /// The constraints that cause the last conflict.
    fn explain(&self) -> (r: Vec<Expr>)
        requires
            self.inv();

    /// The value of `expr` in the current model, where the theory assigns one.
    fn get_model_value(&self, expr: &Expr) -> (r: Option<ModelValue>)
        requires
            self.inv();
}

impl TheorySolver for EufSolver {
    open spec fn inv(&self) -> bool {
        self.wf()
    }

    fn assert_expr(&mut self, expr: &Expr) {
        EufSolver::assert_expr(self, expr)
    }

    fn check(&mut self) -> (r: bool) {
        EufSolver::check(self)
    }

    fn explain(&self) -> (r: Vec<Expr>) {
        EufSolver::explain(self)
    }

    fn get_model_value(&self, expr: &Expr) -> (r: Option<ModelValue>) {
        EufSolver::get_model_value(self, expr)
    }
}

impl TheorySolver for LraSolver {
    open spec fn inv(&self) -> bool {
        self.wf()
    }

    fn assert_expr(&mut self, expr: &Expr) {
        LraSolver::assert_expr(self, expr)
    }

    fn check(&mut self) -> (r: bool) {
        LraSolver::check(self)
    }

    fn explain(&self) -> (r: Vec<Expr>) {
        LraSolver::explain(self)
    }

    fn get_model_value(&self, expr: &Expr) -> (r: Option<ModelValue>) {
        LraSolver::get_model_value(self, expr)
    }
}

impl TheorySolver for ArraySolver {
    open spec fn inv(&self) -> bool {
        self.wf()
    }

    fn assert_expr(&mut self, expr: &Expr) {
        ArraySolver::assert_expr(self, expr)
    }

    fn check(&mut self) -> (r: bool) {
        ArraySolver::check(self)
    }

    fn explain(&self) -> (r: Vec<Expr>) {
        ArraySolver::explain(self)
    }

    fn get_model_value(&self, expr: &Expr) -> (r: Option<ModelValue>) {
        ArraySolver::get_model_value(self, expr)
    }
}

impl TheorySolver for StringSolver {
    open spec fn inv(&self) -> bool {
        self.wf()
    }

    fn assert_expr(&mut self, expr: &Expr) {
        StringSolver::assert_expr(self, expr)
    }

    fn check(&mut self) -> (r: bool) {
        StringSolver::check(self)
    }

    fn explain(&self) -> (r: Vec<Expr>) {
        StringSolver::explain(self)
    }

    fn get_model_value(&self, expr: &Expr) -> (r: Option<ModelValue>) {
        StringSolver::get_model_value(self, expr)
    }
}

impl TheorySolver for QuantifierSolver {
    open spec fn inv(&self) -> bool {
        self.wf()
    }

    fn assert_expr(&mut self, expr: &Expr) {
        QuantifierSolver::assert_expr(self, expr)
    }

    fn check(&mut self) -> (r: bool) {
        QuantifierSolver::check(self)
    }

    fn explain(&self) -> (r: Vec<Expr>) {
        QuantifierSolver::explain(self)
    }

    fn get_model_value(&self, expr: &Expr) -> (r: Option<ModelValue>) {
        QuantifierSolver::get_model_value(self, expr)
    }
}

impl TheorySolver for NlaSolver {
    open spec fn inv(&self) -> bool {
        true
    }

    fn assert_expr(&mut self, expr: &Expr) {
        NlaSolver::assert_expr(self, expr)
    }

    fn check(&mut self) -> (r: bool) {
        NlaSolver::check(self)
    }

    fn explain(&self) -> (r: Vec<Expr>) {
        NlaSolver::explain(self)
    }

    fn get_model_value(&self, expr: &Expr) -> (r: Option<ModelValue>) {
        NlaSolver::get_model_value(self, expr)
    }
}

impl TheorySolver for FpSolver {
    open spec fn inv(&self) -> bool {
        true
    }

    fn assert_expr(&mut self, expr: &Expr) {
        FpSolver::assert_expr(self, expr)
    }

    fn check(&mut self) -> (r: bool) {
        FpSolver::check(self)
    }

    fn explain(&self) -> (r: Vec<Expr>) {
        FpSolver::explain(self)
    }

    fn get_model_value(&self, expr: &Expr) -> (r: Option<ModelValue>) {
        FpSolver::get_model_value(self, expr)
    }
}

} // verus!
