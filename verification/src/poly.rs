//! Multilinear polynomials as they are handed to the commitment scheme.
use vstd::prelude::*;
use crate::algebra::two_to;
use crate::bits::{is_power_of_two, log2, log2_of};
use crate::brakingbase_helper::evaluate_poly;
use crate::field::{PrimeField, vals};
use crate::multilinear::{mle, tensor};
use crate::sums::dot;

verus! {

/// A multilinear polynomial, given by its values on the hypercube.
#[derive(Clone, Debug)]
pub struct MultilinearPolynomial<F: PrimeField> {
    pub evals: Vec<F>,
    pub num_vars: usize,
}

impl<F: PrimeField> MultilinearPolynomial<F> {
    pub open spec fn wf(&self) -> bool {
        self.evals@.len() == two_to(self.num_vars as nat)
    }

    /// The polynomial with the given values, whose number has to be a power of two.
    pub fn new(evals: Vec<F>) -> (r: Self)
        requires
            evals@.len() >= 1,
            is_power_of_two(evals@.len()),
        ensures
            r.wf(),
            r.evals == evals,
            r.num_vars == log2_of(evals@.len()),
    {
        let num_vars = log2(evals.len());
        MultilinearPolynomial { evals, num_vars }
    }

    /// The values on the hypercube.
    pub fn evals(&self) -> (r: &Vec<F>)
        ensures
            *r == self.evals,
    {
        &self.evals
    }

    /// The number of variables.
    pub fn num_vars(&self) -> (r: usize)
        ensures
            r == self.num_vars,
    {
        self.num_vars
    }

    /// The value at a point, whose first coordinate goes with the highest bit of the index.
    pub fn evaluate(&self, point: &Vec<F>) -> (r: F)
        requires
            self.wf(),
            point@.len() == self.num_vars,
        ensures
            r.value() == dot(vals(self.evals@), tensor(F::modulus(), vals(point@))) % F::modulus(),
            point@.len() > 0 ==> r.value() == mle(F::modulus(), vals(self.evals@), vals(point@)),
    {
        evaluate_poly(&self.evals, point)
    }
}

} // verus!
