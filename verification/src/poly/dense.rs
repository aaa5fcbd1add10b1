//! Dense multilinear polynomials.
use vstd::arithmetic::power2::*;
use vstd::prelude::*;

use crate::field::elem::Elem;
use crate::field::{
    base_elems, ext2_add, ext2_mul, ext2_sub, ext_elems, gl_add, gl_mul, gl_sub, GoldilocksExt2,
    GoldilocksField,
};
use crate::poly::model::{
    all_canon, fold, fold_all, lemma_fold_all_len, mle, table_add, table_scale,
};
use crate::poly::MLPoly;
use crate::util::arith::pow2_usize;

verus! {

/// A multilinear polynomial given by its values on the Boolean hypercube.
#[derive(Debug)]
pub struct DenseMLPoly {
    pub n: usize,
    pub evaluations: Vec<GoldilocksField>,
}

/// Tables of words stand for canonical elements.
pub proof fn lemma_base_canon(s: Seq<GoldilocksField>)
    ensures
        all_canon(base_elems(s)),
        base_elems(s).len() == s.len(),
{
}

/// Tables of extension words stand for canonical elements.
pub proof fn lemma_ext_canon(s: Seq<GoldilocksExt2>)
    ensures
        all_canon(ext_elems(s)),
        ext_elems(s).len() == s.len(),
{
}

/// Fixes the first variable of a base field table.
pub fn fold_base(v: &Vec<GoldilocksField>, r: GoldilocksField) -> (w: Vec<GoldilocksField>)
    ensures
        base_elems(w@) == fold(base_elems(v@), r@),
        forall|i: int| 0 <= i < w.len() ==> (#[trigger] w[i]).canonical(),
{
    let half: usize = v.len() / 2;
    let mut w: Vec<GoldilocksField> = Vec::new();
    let mut j: usize = 0;
    let ghost target = fold(base_elems(v@), r@);
    while j < half
        invariant
            j <= half,
            half == v.len() / 2,
            w.len() == j,
            target == fold(base_elems(v@), r@),
            forall|i: int| 0 <= i < j ==> (#[trigger] w[i])@ == target[i] && w[i].canonical(),
        decreases half - j,
    {
        let a: GoldilocksField = v[2 * j];
        let b: GoldilocksField = v[2 * j + 1];
        let x: GoldilocksField = gl_add(a, gl_mul(r, gl_sub(b, a)));
        assert(x@ == target[j as int]);
        w.push(x);
        j = j + 1;
    }
    assert(base_elems(w@) =~= target);
    w
}

/// Fixes the first variable of an extension table.
pub fn fold_ext(v: &Vec<GoldilocksExt2>, r: GoldilocksExt2) -> (w: Vec<GoldilocksExt2>)
    ensures
        ext_elems(w@) == fold(ext_elems(v@), r@),
        forall|i: int| 0 <= i < w.len() ==> (#[trigger] w[i]).canonical(),
{
    let half: usize = v.len() / 2;
    let mut w: Vec<GoldilocksExt2> = Vec::new();
    let mut j: usize = 0;
    let ghost target = fold(ext_elems(v@), r@);
    while j < half
        invariant
            j <= half,
            half == v.len() / 2,
            w.len() == j,
            target == fold(ext_elems(v@), r@),
            forall|i: int| 0 <= i < j ==> (#[trigger] w[i])@ == target[i] && w[i].canonical(),
        decreases half - j,
    {
        let a: GoldilocksExt2 = v[2 * j];
        let b: GoldilocksExt2 = v[2 * j + 1];
        let x: GoldilocksExt2 = ext2_add(a, ext2_mul(r, ext2_sub(b, a)));
        assert(x@ == target[j as int]);
        w.push(x);
        j = j + 1;
    }
    assert(ext_elems(w@) =~= target);
    w
}

/// The same table in the extension.
pub fn lift(v: &Vec<GoldilocksField>) -> (w: Vec<GoldilocksExt2>)
    ensures
        w.len() == v.len(),
        forall|i: int| 0 <= i < w.len() ==> (#[trigger] w[i]).c0 == v[i] && w[i].c1.0 == 0,
        ext_elems(w@) == base_elems(v@),
{
    let mut w: Vec<GoldilocksExt2> = Vec::new();
    let mut i: usize = 0;
    while i < v.len()
        invariant
            i <= v.len(),
            w.len() == i,
            forall|k: int| 0 <= k < i ==> (#[trigger] w[k]).c0 == v[k] && w[k].c1.0 == 0,
        decreases v.len() - i,
    {
        w.push(GoldilocksExt2::from_base(v[i]));
        i = i + 1;
    }
    assert(ext_elems(w@) =~= base_elems(v@));
    w
}

impl Clone for DenseMLPoly {
    fn clone(&self) -> (r: Self)
        ensures
            r.n == self.n,
            r.evaluations@ == self.evaluations@,
    {
        let mut evaluations: Vec<GoldilocksField> = Vec::new();
        let mut i: usize = 0;
        while i < self.evaluations.len()
            invariant
                i <= self.evaluations.len(),
                evaluations@ == self.evaluations@.take(i as int),
            decreases self.evaluations.len() - i,
        {
            evaluations.push(self.evaluations[i]);
            i = i + 1;
            assert(evaluations@ =~= self.evaluations@.take(i as int));
        }
        assert(self.evaluations@.take(i as int) =~= self.evaluations@);
        DenseMLPoly { n: self.n, evaluations }
    }
}

impl DenseMLPoly {
    /// There is one value per corner of the hypercube.
    pub open spec fn valid(&self) -> bool {
        &&& self.n < usize::BITS
        &&& self.evaluations.len() == pow2(self.n as nat)
    }

    /// The values as field elements.
    pub open spec fn values(&self) -> Seq<Elem> {
        base_elems(self.evaluations@)
    }

    /// The polynomial with the given `2^n` values.
    pub fn new(n: usize, data: Vec<GoldilocksField>) -> (r: Self)
        requires
            n < usize::BITS,
            data.len() == pow2(n as nat),
        ensures
            r.valid(),
            r.n == n,
            r.evaluations@ == data@,
    {
        DenseMLPoly { n, evaluations: data }
    }

    pub fn len(&self) -> (r: usize)
        ensures
            r == self.evaluations.len(),
    {
        self.evaluations.len()
    }

    /// The zero polynomial.
    pub fn zero(n: usize) -> (r: Self)
        requires
            n < usize::BITS,
        ensures
            r.valid(),
            r.n == n,
            forall|i: int| 0 <= i < r.evaluations.len() ==> (#[trigger] r.evaluations[i]).0 == 0,
    {
        let size: usize = pow2_usize(n);
        let mut evaluations: Vec<GoldilocksField> = Vec::new();
        let mut i: usize = 0;
        while i < size
            invariant
                i <= size,
                evaluations.len() == i,
                forall|k: int| 0 <= k < i ==> (#[trigger] evaluations[k]).0 == 0,
            decreases size - i,
        {
            evaluations.push(GoldilocksField(0));
            i = i + 1;
        }
        DenseMLPoly { n, evaluations }
    }

    /// Fixes the leading variables to the coordinates of `partial_point`.
    pub fn fix_variables(&self, partial_point: &[GoldilocksField]) -> (r: DenseMLPoly)
        requires
            self.valid(),
            partial_point.len() <= self.n,
        ensures
            r.valid(),
            r.n == self.n - partial_point.len(),
            r.values() == fold_all(self.values(), base_elems(partial_point@)),
            partial_point.len() == 0 ==> r.evaluations@ == self.evaluations@,
            partial_point.len() > 0 ==> forall|i: int|
                0 <= i < r.evaluations.len() ==> (#[trigger] r.evaluations[i]).canonical(),
    {
        let m: usize = partial_point.len();
        let mut cur: DenseMLPoly = self.clone();
        let mut i: usize = 0;
        let ghost point = base_elems(partial_point@);
        assert(point.take(0) =~= Seq::<Elem>::empty());
        while i < m
            invariant
                i <= m,
                m == partial_point.len(),
                m <= self.n,
                self.valid(),
                point == base_elems(partial_point@),
                cur.n == self.n,
                cur.values() == fold_all(self.values(), point.take(i as int)),
                i == 0 ==> cur.evaluations@ == self.evaluations@,
                i > 0 ==> forall|k: int|
                    0 <= k < cur.evaluations.len() ==> (#[trigger] cur.evaluations[k]).canonical(),
            decreases m - i,
        {
            proof {
                assert(point.take(i as int + 1).drop_last() =~= point.take(i as int));
                assert(point.take(i as int + 1).last() == partial_point[i as int]@);
            }
            cur.evaluations = fold_base(&cur.evaluations, partial_point[i]);
            i = i + 1;
        }
        proof {
            assert(point.take(m as int) =~= point);
            lemma_fold_all_len(self.values(), self.n as nat, point);
            assert(cur.values().len() == cur.evaluations.len());
        }
        DenseMLPoly { n: self.n - m, evaluations: cur.evaluations }
    }

    /// Value at a point; coordinates beyond the number of variables are ignored.
    pub fn evaluate(&self, point: &[GoldilocksField]) -> (r: GoldilocksField)
        requires
            self.valid(),
            point.len() >= self.n,
        ensures
            r@ == mle(self.values(), base_elems(point@).take(self.n as int)),
            self.n > 0 ==> r.canonical(),
            self.n == 0 ==> r == self.evaluations[0],
    {
        let mut head: Vec<GoldilocksField> = Vec::new();
        let mut i: usize = 0;
        while i < self.n
            invariant
                i <= self.n <= point.len(),
                head@ == point@.take(i as int),
            decreases self.n - i,
        {
            head.push(point[i]);
            i = i + 1;
            assert(head@ =~= point@.take(i as int));
        }
        let fixed: DenseMLPoly = self.fix_variables(head.as_slice());
        proof {
            lemma2_to64();
            assert(base_elems(head@) =~= base_elems(point@).take(self.n as int));
            assert(fixed.evaluations.len() == 1);
        }
        fixed.evaluations[0]
    }

    /// Sum of two polynomials in the same variables.
    pub fn add_poly(&self, other: &DenseMLPoly) -> (r: DenseMLPoly)
        requires
            self.valid(),
            other.valid(),
            self.n == other.n,
        ensures
            r.valid(),
            r.n == self.n,
            r.values() == table_add(self.values(), other.values()),
            forall|i: int|
                0 <= i < r.evaluations.len() ==> (#[trigger] r.evaluations[i]).canonical(),
    {
        let mut evaluations: Vec<GoldilocksField> = Vec::new();
        let mut i: usize = 0;
        while i < self.evaluations.len()
            invariant
                i <= self.evaluations.len(),
                self.evaluations.len() == other.evaluations.len(),
                evaluations.len() == i,
                forall|k: int|
                    0 <= k < i ==> (#[trigger] evaluations[k])@ == self.evaluations[k]@
                        + other.evaluations[k]@ && evaluations[k].canonical(),
            decreases self.evaluations.len() - i,
        {
            evaluations.push(gl_add(self.evaluations[i], other.evaluations[i]));
            i = i + 1;
        }
        assert(base_elems(evaluations@) =~= table_add(self.values(), other.values()));
        DenseMLPoly { n: self.n, evaluations }
    }

    /// Difference of two polynomials in the same variables.
    pub fn sub_poly(&self, other: &DenseMLPoly) -> (r: DenseMLPoly)
        requires
            self.valid(),
            other.valid(),
            self.n == other.n,
        ensures
            r.valid(),
            r.n == self.n,
            r.values() =~= Seq::new(
                self.values().len(),
                |i: int| self.values()[i] - other.values()[i],
            ),
            forall|i: int|
                0 <= i < r.evaluations.len() ==> (#[trigger] r.evaluations[i]).canonical(),
    {
        let mut evaluations: Vec<GoldilocksField> = Vec::new();
        let mut i: usize = 0;
        while i < self.evaluations.len()
            invariant
                i <= self.evaluations.len(),
                self.evaluations.len() == other.evaluations.len(),
                evaluations.len() == i,
                forall|k: int|
                    0 <= k < i ==> (#[trigger] evaluations[k])@ == self.evaluations[k]@
                        - other.evaluations[k]@ && evaluations[k].canonical(),
            decreases self.evaluations.len() - i,
        {
            evaluations.push(gl_sub(self.evaluations[i], other.evaluations[i]));
            i = i + 1;
        }
        DenseMLPoly { n: self.n, evaluations }
    }

    /// Product of the polynomial with a constant.
    pub fn scale(&self, scalar: GoldilocksField) -> (r: DenseMLPoly)
        requires
            self.valid(),
        ensures
            r.valid(),
            r.n == self.n,
            r.values() == table_scale(scalar@, self.values()),
            forall|i: int|
                0 <= i < r.evaluations.len() ==> (#[trigger] r.evaluations[i]).canonical(),
    {
        let mut evaluations: Vec<GoldilocksField> = Vec::new();
        let mut i: usize = 0;
        while i < self.evaluations.len()
            invariant
                i <= self.evaluations.len(),
                evaluations.len() == i,
                forall|k: int|
                    0 <= k < i ==> (#[trigger] evaluations[k])@ == scalar@ * self.evaluations[k]@
                        && evaluations[k].canonical(),
            decreases self.evaluations.len() - i,
        {
            proof {
                crate::field::elem::lemma_mul_comm(self.evaluations[i as int]@, scalar@);
            }
            evaluations.push(gl_mul(self.evaluations[i], scalar));
            i = i + 1;
        }
        assert(base_elems(evaluations@) =~= table_scale(scalar@, self.values()));
        DenseMLPoly { n: self.n, evaluations }
    }

    /// Value at a point of the extension; coordinates beyond the number of variables are ignored.
    pub fn evaluate_ext2(&self, point: &[GoldilocksExt2]) -> (r: GoldilocksExt2)
        requires
            self.valid(),
            point.len() >= self.n,
        ensures
            r@ == mle(self.values(), ext_elems(point@).take(self.n as int)),
            self.n > 0 ==> r.canonical(),
            self.n == 0 ==> r.c0 == self.evaluations[0] && r.c1.0 == 0,
    {
        let mut data: Vec<GoldilocksExt2> = lift(&self.evaluations);
        let mut i: usize = 0;
        let ghost pt = ext_elems(point@);
        proof {
            lemma2_to64();
            lemma_pow2_pos(self.n as nat);
            assert(pt.take(0) =~= Seq::<Elem>::empty());
        }
        while i < self.n
            invariant
                i <= self.n <= point.len(),
                self.valid(),
                pt == ext_elems(point@),
                ext_elems(data@) == fold_all(self.values(), pt.take(i as int)),
                i == 0 ==> data.len() > 0 && data[0].c0 == self.evaluations[0] && data[0].c1.0 == 0,
                i > 0 ==> forall|k: int| 0 <= k < data.len() ==> (#[trigger] data[k]).canonical(),
            decreases self.n - i,
        {
            proof {
                assert(pt.take(i as int + 1).drop_last() =~= pt.take(i as int));
                assert(pt.take(i as int + 1).last() == point[i as int]@);
            }
            data = fold_ext(&data, point[i]);
            i = i + 1;
        }
        proof {
            lemma_fold_all_len(self.values(), self.n as nat, pt.take(self.n as int));
            assert(ext_elems(data@).len() == data.len());
            assert(data.len() == 1);
            assert(ext_elems(data@)[0] == data[0]@);
        }
        data[0]
    }
}

impl MLPoly for DenseMLPoly {
    open spec fn wf(&self) -> bool {
        self.valid()
    }

    open spec fn vars(&self) -> nat {
        self.n as nat
    }

    open spec fn table(&self) -> Seq<Elem> {
        self.values()
    }

    fn n(&self) -> (r: usize) {
        self.n
    }

    fn len(&self) -> (r: usize) {
        self.evaluations.len()
    }

    fn evaluate_at_point(&self, point: &[GoldilocksField]) -> (r: GoldilocksField)
        ensures
            self.n == 0 ==> r == self.evaluations[0],
    {
        self.evaluate(point)
    }

    fn evaluate_at_point_ext2(&self, point: &[GoldilocksExt2]) -> (r: GoldilocksExt2)
        ensures
            self.n == 0 ==> r.c0 == self.evaluations[0] && r.c1.0 == 0,
    {
        self.evaluate_ext2(point)
    }

    fn evaluations(&self) -> (r: Vec<GoldilocksField>)
        ensures
            r@ == self.evaluations@,
    {
        self.clone().evaluations
    }

    fn index(&self, index: usize) -> (r: GoldilocksField)
        ensures
            r == self.evaluations[index as int],
    {
        self.evaluations[index]
    }
}

} // verus!
