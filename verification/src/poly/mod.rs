//! Multilinear polynomials: dense and sparse tables, Lagrange bases, and the
//! fixed lookup tables.
use vstd::prelude::*;

use crate::field::elem::Elem;
use crate::field::{base_elems, ext_elems, GoldilocksExt2, GoldilocksField};
use crate::poly::model::mle;

pub mod basis;
pub mod crypto_field;
pub mod dense;
pub mod model;
pub mod sparse;

pub use crate::poly::crypto_field::CryptoField;
pub use crate::poly::dense::DenseMLPoly;
pub use crate::poly::sparse::{SelectionPolynomial, SparseMLPoly};

verus! {

/// A multilinear polynomial with base field coefficients.
pub trait MLPoly {
    /// The representation is consistent.
    spec fn wf(&self) -> bool;

    /// Number of variables.
    spec fn vars(&self) -> nat;

    /// Values on the Boolean hypercube.
    spec fn table(&self) -> Seq<Elem>;

    fn n(&self) -> (r: usize)
        requires
            self.wf(),
        ensures
            r == self.vars(),
    ;

    fn len(&self) -> (r: usize)
        requires
            self.wf(),
        ensures
            r == self.table().len(),
    ;

    /// Value at a point; coordinates beyond the number of variables are ignored.
    fn evaluate_at_point(&self, point: &[GoldilocksField]) -> (r: GoldilocksField)
        requires
            self.wf(),
            point.len() >= self.vars(),
        ensures
            r@ == mle(self.table(), base_elems(point@).take(self.vars() as int)),
            self.vars() > 0 ==> r.canonical(),
    ;

    /// Value at a point of the extension; coordinates beyond the number of variables are ignored.
    fn evaluate_at_point_ext2(&self, point: &[GoldilocksExt2]) -> (r: GoldilocksExt2)
        requires
            self.wf(),
            point.len() >= self.vars(),
        ensures
            r@ == mle(self.table(), ext_elems(point@).take(self.vars() as int)),
            self.vars() > 0 ==> r.canonical(),
    ;

    /// The values on the hypercube, in order.
    fn evaluations(&self) -> (r: Vec<GoldilocksField>)
        requires
            self.wf(),
        ensures
            base_elems(r@) == self.table(),
    ;

    /// The value at one corner.
    fn index(&self, index: usize) -> (r: GoldilocksField)
        requires
            self.wf(),
            index < self.table().len(),
        ensures
            r@ == self.table()[index as int],
    ;
}

} // verus!
