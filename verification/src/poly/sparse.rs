//! Sparse multilinear polynomials and the selections behind lookups.
use std::collections::HashMap;
use std::collections::VecDeque;

use vstd::arithmetic::div_mod::*;
use vstd::arithmetic::mul::*;
use vstd::arithmetic::power2::*;
use vstd::prelude::*;
use vstd::std_specs::hash::*;
use vstd::std_specs::iter::IteratorSpec;

use crate::field::elem::{
    lemma_add_assoc, lemma_add_canon, lemma_add_comm, lemma_add_zero, lemma_mul_zero, one, zero,
    Elem,
};
use crate::field::sums::{lemma_sum_add, lemma_sum_eq, lemma_sum_single, lemma_sum_zero, prod, sum};
use crate::field::{
    base_elems, ext2_add, ext2_mul, ext2_sub, ext_elems, gl_add, gl_mul, gl_sub, GoldilocksExt2,
    GoldilocksField,
};
use crate::poly::dense::DenseMLPoly;
use crate::poly::model::{
    all_canon, bit, bit_factor, eq_weight, fold_all, lemma_mle_sum, mle, table_add,
};
use crate::poly::MLPoly;
use crate::util::arith::pow2_usize;

verus! {

broadcast use vstd::std_specs::hash::group_hash_axioms;

/// Pairs of an input index and the table entry that it selects.
#[derive(Debug)]
pub struct SelectionPolynomial {
    pub input_num_vars: usize,
    pub table_num_vars: usize,
    pub selection: Vec<(usize, usize)>,
}

impl Clone for SelectionPolynomial {
    fn clone(&self) -> (r: Self)
        ensures
            r.input_num_vars == self.input_num_vars,
            r.table_num_vars == self.table_num_vars,
            r.selection@ == self.selection@,
    {
        let mut selection: Vec<(usize, usize)> = Vec::new();
        let mut i: usize = 0;
        while i < self.selection.len()
            invariant
                i <= self.selection.len(),
                selection@ == self.selection@.take(i as int),
            decreases self.selection.len() - i,
        {
            selection.push(self.selection[i]);
            i = i + 1;
            assert(selection@ =~= self.selection@.take(i as int));
        }
        assert(self.selection@.take(i as int) =~= self.selection@);
        SelectionPolynomial {
            input_num_vars: self.input_num_vars,
            table_num_vars: self.table_num_vars,
            selection,
        }
    }
}

impl SelectionPolynomial {
    /// The selection of nothing.
    pub fn empty() -> (r: Self)
        ensures
            r.input_num_vars == 0,
            r.table_num_vars == 0,
            r.selection@ == Seq::<(usize, usize)>::empty(),
    {
        SelectionPolynomial { input_num_vars: 0, table_num_vars: 0, selection: Vec::new() }
    }

    pub fn new(
        input_num_vars: usize,
        table_num_vars: usize,
        selection: Vec<(usize, usize)>,
    ) -> (r: Self)
        ensures
            r.input_num_vars == input_num_vars,
            r.table_num_vars == table_num_vars,
            r.selection == selection,
    {
        SelectionPolynomial { input_num_vars, table_num_vars, selection }
    }

    /// The position of the `i`-th pair in the joint table: input variables are the low bits.
    pub open spec fn position(&self, i: int) -> int {
        self.selection[i].0 + self.selection[i].1 * pow2(self.input_num_vars as nat)
    }

    /// The polynomial that is one at every selected pair and zero elsewhere.
    pub fn to_sparse(&self) -> (r: SparseMLPoly)
        requires
            self.input_num_vars < usize::BITS,
            self.input_num_vars + self.table_num_vars <= usize::MAX,
            forall|i: int|
                0 <= i < self.selection.len() ==> #[trigger] self.position(i) <= usize::MAX,
        ensures
            r.n == self.input_num_vars + self.table_num_vars,
            r.selection.input_num_vars == self.input_num_vars,
            r.selection.table_num_vars == self.table_num_vars,
            r.selection.selection@ == self.selection@,
            forall|x: usize| #[trigger]
                r.evaluations@.contains_key(x) <==> exists|i: int|
                    0 <= i < self.selection.len() && x == #[trigger] self.position(i),
            forall|x: usize| #[trigger]
                r.evaluations@.contains_key(x) ==> r.evaluations@[x].0 == 1,
            r.indices_match(),
    {
        let n: usize = self.input_num_vars + self.table_num_vars;
        let stride: usize = pow2_usize(self.input_num_vars);
        let mut evaluations: HashMap<usize, GoldilocksField> = HashMap::new();
        let mut i: usize = 0;
        while i < self.selection.len()
            invariant
                i <= self.selection.len(),
                stride == pow2(self.input_num_vars as nat),
                forall|i: int|
                    0 <= i < self.selection.len() ==> #[trigger] self.position(i) <= usize::MAX,
                forall|x: usize| #[trigger]
                    evaluations@.contains_key(x) <==> exists|k: int|
                        0 <= k < i && x == #[trigger] self.position(k),
                forall|x: usize| #[trigger]
                    evaluations@.contains_key(x) ==> evaluations@[x].0 == 1,
            decreases self.selection.len() - i,
        {
            let (input_index, table_index) = self.selection[i];
            proof {
                assert(self.position(i as int) <= usize::MAX);
                assert(0 <= table_index * stride) by (nonlinear_arith)
                    requires
                        table_index >= 0,
                        stride >= 0,
                ;
            }
            let index: usize = input_index + table_index * stride;
            let ghost before = evaluations@;
            evaluations.insert(index, GoldilocksField(1));
            proof {
                assert(index == self.position(i as int));
                assert forall|x: usize| #[trigger]
                    evaluations@.contains_key(x) <==> exists|k: int|
                        0 <= k < i + 1 && x == #[trigger] self.position(k) by {
                    if evaluations@.contains_key(x) {
                        if x == index {
                            assert(0 <= i < i + 1 && x == self.position(i as int));
                        } else {
                            assert(before.contains_key(x));
                            let k = choose|k: int| 0 <= k < i && x == #[trigger] self.position(k);
                            assert(0 <= k < i + 1 && x == self.position(k));
                        }
                    }
                    if exists|k: int| 0 <= k < i + 1 && x == #[trigger] self.position(k) {
                        let k = choose|k: int| 0 <= k < i + 1 && x == #[trigger] self.position(k);
                        if k < i {
                            assert(before.contains_key(x));
                        }
                    }
                }
            }
            i = i + 1;
        }
        let mut sp: SparseMLPoly = SparseMLPoly::new(n, evaluations);
        sp.selection = self.clone();
        sp
    }
}

/// A multilinear polynomial given by its nonzero values.
#[derive(Debug)]
pub struct SparseMLPoly {
    pub n: usize,
    pub evaluations: HashMap<usize, GoldilocksField>,
    pub indices: VecDeque<usize>,
    pub selection: SelectionPolynomial,
}

/// The value that a map of nonzero values gives to an index.
pub open spec fn value_at(m: Map<usize, GoldilocksField>, x: int) -> Elem {
    if 0 <= x <= usize::MAX && m.contains_key(x as usize) {
        m[x as usize]@
    } else {
        zero()
    }
}

/// The table that a map of nonzero values stands for; indices beyond the table are ignored.
pub open spec fn table_of(m: Map<usize, GoldilocksField>, n: nat) -> Seq<Elem> {
    Seq::new(pow2(n), |x: int| value_at(m, x))
}

/// The entries of a map, weighted by the corner that their low bits name.
pub open spec fn weighted_entries(m: Map<usize, GoldilocksField>, point: Seq<Elem>) -> Elem
    decreases m.dom().len(),
    when m.dom().finite()
{
    if m.dom().len() == 0 {
        zero()
    } else {
        let k = m.dom().choose();
        weighted_entries(m.remove(k), point) + eq_weight(k as int, point) * m[k]@
    }
}

/// Any entry can be split off the weighted sum.
pub proof fn lemma_weighted_remove(m: Map<usize, GoldilocksField>, point: Seq<Elem>, a: usize)
    requires
        m.dom().finite(),
        m.contains_key(a),
    ensures
        weighted_entries(m, point) == weighted_entries(m.remove(a), point) + eq_weight(
            a as int,
            point,
        ) * m[a]@,
    decreases m.dom().len(),
{
    assert(m.dom().len() > 0);
    let c = m.dom().choose();
    if c != a {
        lemma_weighted_remove(m.remove(c), point, a);
        lemma_weighted_remove(m.remove(a), point, c);
        assert(m.remove(c).remove(a) =~= m.remove(a).remove(c));
        let rest = weighted_entries(m.remove(a).remove(c), point);
        let (x, y) = (eq_weight(a as int, point) * m[a]@, eq_weight(c as int, point) * m[c]@);
        lemma_add_assoc(rest, x, y);
        lemma_add_comm(x, y);
        lemma_add_assoc(rest, y, x);
    }
}

/// With all indices in range the weighted entries are the value of the table's extension.
pub proof fn lemma_weighted_is_mle(m: Map<usize, GoldilocksField>, point: Seq<Elem>)
    requires
        m.dom().finite(),
        forall|k: usize| #[trigger] m.contains_key(k) ==> k < pow2(point.len()),
    ensures
        weighted_entries(m, point) == mle(table_of(m, point.len()), point),
{
    let t = table_of(m, point.len());
    lemma_table_canon(m, point.len());
    lemma_mle_sum(t, point);
    lemma_weighted_is_sum(m, point);
}

proof fn lemma_table_canon(m: Map<usize, GoldilocksField>, n: nat)
    ensures
        all_canon(table_of(m, n)),
{
}

proof fn lemma_weighted_is_sum(m: Map<usize, GoldilocksField>, point: Seq<Elem>)
    requires
        m.dom().finite(),
        forall|k: usize| #[trigger] m.contains_key(k) ==> k < pow2(point.len()),
    ensures
        weighted_entries(m, point) == sum(
            pow2(point.len()),
            |x: int| eq_weight(x, point) * table_of(m, point.len())[x],
        ),
    decreases m.dom().len(),
{
    let size = pow2(point.len());
    let f = |x: int| eq_weight(x, point) * table_of(m, point.len())[x];
    if m.dom().len() == 0 {
        assert forall|x: int| 0 <= x < size implies #[trigger] f(x) == zero() by {
            assert(!m.dom().contains(x as usize));
            lemma_mul_zero(eq_weight(x, point));
        }
        lemma_sum_zero(size, f);
    } else {
        let k = m.dom().choose();
        let r = m.remove(k);
        lemma_weighted_is_sum(r, point);
        let g = |x: int| eq_weight(x, point) * table_of(r, point.len())[x];
        let e = |x: int| if x == k { eq_weight(x, point) * m[k]@ } else { zero() };
        let both = |x: int| g(x) + e(x);
        assert(m.contains_key(k));
        lemma_add_canon(eq_weight(k as int, point), m[k]@);
        assert forall|x: int| 0 <= x < size implies #[trigger] f(x) == both(x) by {
            lemma_mul_zero(eq_weight(x, point));
            lemma_add_canon(eq_weight(x, point), table_of(m, point.len())[x]);
            lemma_add_zero(f(x));
        }
        lemma_sum_eq(size, f, both);
        lemma_sum_add(size, g, e);
        lemma_sum_single(size, k as int, e);
    }
}

/// The keys of a map, each once.
pub fn keys_of(m: &HashMap<usize, GoldilocksField>) -> (r: Vec<usize>)
    ensures
        r@.no_duplicates(),
        r@.to_set() == m@.dom(),
{
    let mut r: Vec<usize> = Vec::new();
    for k in it: m.keys()
        invariant
            r@ == it.seq().unref().take(it.index()),
    {
        r.push(*k);
        assert(r@ =~= it.seq().unref().take(it.index() + 1));
    }
    proof {
        let all = spec_keys_iter(m).remaining();
        assert(r@ =~= all.unref());
        assert forall|i: int, j: int| 0 <= i < r.len() && 0 <= j < r.len() && i != j implies r[i]
            != r[j] by {
            assert(all[i] != all[j]);
        }
    }
    r
}

impl SparseMLPoly {
    /// The recorded indices are the indices of the nonzero values.
    pub open spec fn indices_match(&self) -> bool {
        self.indices@.no_duplicates() && self.indices@.to_set() == self.evaluations@.dom()
    }

    /// The polynomials agree in all that they hold.
    pub open spec fn same(&self, other: &SparseMLPoly) -> bool {
        &&& self.n == other.n
        &&& self.evaluations@ == other.evaluations@
        &&& self.indices@ == other.indices@
        &&& self.selection.input_num_vars == other.selection.input_num_vars
        &&& self.selection.table_num_vars == other.selection.table_num_vars
        &&& self.selection.selection@ == other.selection.selection@
    }

    /// The polynomial was made from its nonzero values alone.
    pub open spec fn fresh(&self) -> bool {
        &&& self.indices_match()
        &&& self.selection.input_num_vars == 0
        &&& self.selection.table_num_vars == 0
        &&& self.selection.selection.len() == 0
    }

    /// The polynomial with the given nonzero values.
    pub fn new(n: usize, evals: HashMap<usize, GoldilocksField>) -> (r: Self)
        ensures
            r.n == n,
            r.evaluations == evals,
            r.fresh(),
    {
        let keys: Vec<usize> = keys_of(&evals);
        let mut indices: VecDeque<usize> = VecDeque::new();
        let mut i: usize = 0;
        while i < keys.len()
            invariant
                i <= keys.len(),
                indices@ == keys@.take(i as int),
            decreases keys.len() - i,
        {
            indices.push_back(keys[i]);
            i = i + 1;
            assert(indices@ =~= keys@.take(i as int));
        }
        assert(keys@.take(i as int) =~= keys@);
        SparseMLPoly { n, evaluations: evals, indices, selection: SelectionPolynomial::empty() }
    }

    /// The table of all values; indices beyond the table are ignored.
    pub fn to_dense(&self) -> (r: DenseMLPoly)
        requires
            self.n < usize::BITS,
        ensures
            r.valid(),
            r.n == self.n,
            r.values() == table_of(self.evaluations@, self.n as nat),
            forall|x: int|
                0 <= x < r.evaluations.len() ==> #[trigger] r.evaluations[x] == word_at(
                    self.evaluations@,
                    x,
                ),
    {
        let size: usize = pow2_usize(self.n);
        let mut evals: Vec<GoldilocksField> = Vec::new();
        let mut i: usize = 0;
        while i < size
            invariant
                i <= size,
                evals.len() == i,
                forall|x: int|
                    0 <= x < i ==> #[trigger] evals[x] == word_at(self.evaluations@, x),
            decreases size - i,
        {
            evals.push(lookup(&self.evaluations, i));
            i = i + 1;
        }
        assert(base_elems(evals@) =~= table_of(self.evaluations@, self.n as nat));
        DenseMLPoly::new(self.n, evals)
    }

    /// Fixes the leading variables to the coordinates of `partial_point`.
    pub fn fix_variables(&self, partial_point: &[GoldilocksField]) -> (r: SparseMLPoly)
        requires
            self.n < usize::BITS,
            partial_point.len() <= self.n,
        ensures
            r.n == self.n - partial_point.len(),
            partial_point.len() == 0 ==> r.same(self),
            partial_point.len() > 0 ==> r.fresh(),
            partial_point.len() > 0 ==> table_of(r.evaluations@, r.n as nat) == fold_all(
                table_of(self.evaluations@, self.n as nat),
                base_elems(partial_point@),
            ),
            partial_point.len() > 0 ==> forall|x: usize| #[trigger]
                r.evaluations@.contains_key(x) ==> x < pow2(r.n as nat) && r.evaluations@[x].0 != 0
                    && r.evaluations@[x].canonical(),
    {
        let m: usize = partial_point.len();
        if m == 0 {
            return self.clone();
        }
        let dense: DenseMLPoly = self.to_dense();
        let fixed: DenseMLPoly = dense.fix_variables(partial_point);
        let mut evals: HashMap<usize, GoldilocksField> = HashMap::new();
        let mut i: usize = 0;
        while i < fixed.evaluations.len()
            invariant
                i <= fixed.evaluations.len(),
                fixed.valid(),
                forall|x: int|
                    0 <= x < fixed.evaluations.len() ==> (
                    #[trigger] fixed.evaluations[x]).canonical(),
                forall|x: usize| #[trigger]
                    evals@.contains_key(x) <==> x < i && fixed.evaluations[x as int].0 != 0,
                forall|x: usize| #[trigger]
                    evals@.contains_key(x) ==> evals@[x] == fixed.evaluations[x as int],
            decreases fixed.evaluations.len() - i,
        {
            let v: GoldilocksField = fixed.evaluations[i];
            if v.0 != 0 {
                evals.insert(i, v);
            }
            i = i + 1;
        }
        let r: SparseMLPoly = SparseMLPoly::new(self.n - m, evals);
        proof {
            let t = table_of(r.evaluations@, r.n as nat);
            assert forall|x: int| 0 <= x < t.len() implies t[x] == fixed.values()[x] by {
                assert(fixed.evaluations[x].canonical());
                assert(r.evaluations@.contains_key(x as usize) <==> fixed.evaluations[x].0 != 0);
            }
            assert(t =~= fixed.values());
        }
        r
    }

    /// The restrictions to consecutive blocks of `2^block_log` indices.
    pub fn split_into_blocks(&self, block_log: usize) -> (blocks: Vec<SparseMLPoly>)
        requires
            self.n < usize::BITS,
        ensures
            self.n <= block_log ==> blocks.len() == 1 && blocks[0].same(self),
            self.n > block_log ==> blocks.len() == pow2((self.n - block_log) as nat) && (forall|
                b: int,
            |
                0 <= b < blocks.len() ==> is_block(
                    #[trigger] blocks[b],
                    self.evaluations@,
                    block_log as nat,
                    b,
                )),
    {
        let mut blocks: Vec<SparseMLPoly> = Vec::new();
        if self.n <= block_log {
            blocks.push(self.clone());
            return blocks;
        }
        let block_size: usize = pow2_usize(block_log);
        let num_blocks: usize = pow2_usize(self.n - block_log);
        let keys: Vec<usize> = keys_of(&self.evaluations);
        let whole: usize = pow2_usize(self.n);
        proof {
            lemma_pow2_adds((self.n - block_log) as nat, block_log as nat);
        }
        let mut b: usize = 0;
        while b < num_blocks
            invariant
                b <= num_blocks,
                block_size == pow2(block_log as nat),
                num_blocks * block_size == whole,
                block_size > 0,
                keys@.to_set() == self.evaluations@.dom(),
                blocks.len() == b,
                forall|k: int|
                    0 <= k < b ==> is_block(
                        #[trigger] blocks[k],
                        self.evaluations@,
                        block_log as nat,
                        k,
                    ),
            decreases num_blocks - b,
        {
            proof {
                assert(b * block_size + block_size <= whole) by (nonlinear_arith)
                    requires
                        b + 1 <= num_blocks,
                        num_blocks * block_size == whole,
                        block_size > 0,
                ;
                assert(0 <= b * block_size) by (nonlinear_arith);
            }
            let start: usize = b * block_size;
            let mut block_evals: HashMap<usize, GoldilocksField> = HashMap::new();
            let mut i: usize = 0;
            while i < keys.len()
                invariant
                    i <= keys.len(),
                    keys@.to_set() == self.evaluations@.dom(),
                    start + block_size <= whole,
                    forall|x: usize| #[trigger]
                        block_evals@.contains_key(x) ==> x < block_size && x + start <= usize::MAX
                            && self.evaluations@.contains_key((x + start) as usize)
                            && block_evals@[x] == self.evaluations@[(x + start) as usize],
                    forall|k: int|
                        0 <= k < i && start <= #[trigger] keys[k] < start + block_size
                            ==> block_evals@.contains_key((keys[k] - start) as usize),
                decreases keys.len() - i,
            {
                let idx: usize = keys[i];
                proof {
                    assert(keys@.to_set().contains(idx));
                }
                if idx >= start && idx - start < block_size {
                    let val: GoldilocksField = lookup(&self.evaluations, idx);
                    block_evals.insert(idx - start, val);
                }
                i = i + 1;
            }
            let block: SparseMLPoly = SparseMLPoly::new(block_log, block_evals);
            proof {
                assert forall|x: usize| #[trigger]
                    block.evaluations@.contains_key(x) <==> x < block_size
                        && self.evaluations@.dom().contains((x + start) as usize) by {
                    if x < block_size && self.evaluations@.dom().contains((x + start) as usize) {
                        let y = (x + start) as usize;
                        assert(keys@.to_set().contains(y));
                        let k = choose|k: int| 0 <= k < keys.len() && keys[k] == y;
                        assert(start <= keys[k] < start + block_size);
                    }
                }
            }
            blocks.push(block);
            b = b + 1;
        }
        blocks
    }

    /// The product of the polynomial with a constant.
    pub fn mul_by_scalar(&self, scalar: GoldilocksField) -> (r: SparseMLPoly)
        ensures
            r.n == self.n,
            r.fresh(),
            r.evaluations@.dom() == self.evaluations@.dom(),
            forall|x: usize| #[trigger]
                r.evaluations@.contains_key(x) ==> r.evaluations@[x]@ == self.evaluations@[x]@
                    * scalar@ && r.evaluations@[x].canonical(),
    {
        let keys: Vec<usize> = keys_of(&self.evaluations);
        let mut evals: HashMap<usize, GoldilocksField> = HashMap::new();
        let mut i: usize = 0;
        while i < keys.len()
            invariant
                i <= keys.len(),
                keys@.to_set() == self.evaluations@.dom(),
                evals@.dom() == keys@.take(i as int).to_set(),
                forall|x: usize| #[trigger]
                    evals@.contains_key(x) ==> evals@[x]@ == self.evaluations@[x]@ * scalar@
                        && evals@[x].canonical(),
            decreases keys.len() - i,
        {
            let idx: usize = keys[i];
            proof {
                assert(keys@.to_set().contains(idx));
            }
            let v: GoldilocksField = lookup(&self.evaluations, idx);
            evals.insert(idx, gl_mul(v, scalar));
            proof {
                lemma_take_to_set(keys@, i as int);
                assert(evals@.dom() =~= keys@.take(i as int).to_set().insert(idx));
            }
            i = i + 1;
        }
        assert(keys@.take(i as int) =~= keys@);
        SparseMLPoly::new(self.n, evals)
    }

    /// The sum with a dense polynomial in the same variables, as a dense polynomial.
    pub fn add(&self, other: &DenseMLPoly) -> (r: DenseMLPoly)
        requires
            self.n < usize::BITS,
            other.valid(),
            other.n == self.n,
        ensures
            r.valid(),
            r.n == self.n,
            r.values() == table_add(table_of(self.evaluations@, self.n as nat), other.values()),
            forall|i: int|
                0 <= i < r.evaluations.len() ==> (#[trigger] r.evaluations[i]).canonical(),
    {
        self.to_dense().add_poly(other)
    }

    /// Sets the value at one index.
    pub fn set_index(&mut self, index: usize, value: GoldilocksField)
        ensures
            final(self).n == old(self).n,
            final(self).evaluations@ == old(self).evaluations@.insert(index, value),
            final(self).indices == old(self).indices,
            final(self).selection == old(self).selection,
    {
        self.evaluations.insert(index, value);
    }
}

/// The word that a map of nonzero values gives to an index.
pub open spec fn word_at(m: Map<usize, GoldilocksField>, x: int) -> GoldilocksField {
    if m.contains_key(x as usize) {
        m[x as usize]
    } else {
        GoldilocksField(0)
    }
}

/// The value of a map at an index, zero where it has none.
pub fn lookup(m: &HashMap<usize, GoldilocksField>, index: usize) -> (r: GoldilocksField)
    ensures
        r == word_at(m@, index as int),
{
    match m.get(&index) {
        Some(v) => *v,
        None => GoldilocksField(0),
    }
}

/// `block` holds the values of indices `b * 2^log .. (b + 1) * 2^log`, shifted to start at zero.
pub open spec fn is_block(
    block: SparseMLPoly,
    m: Map<usize, GoldilocksField>,
    log: nat,
    b: int,
) -> bool {
    let start = b * pow2(log);
    &&& block.n == log
    &&& block.fresh()
    &&& forall|x: usize| #[trigger]
        block.evaluations@.contains_key(x) <==> x < pow2(log) && m.contains_key(
            (x + start) as usize,
        )
    &&& forall|x: usize| #[trigger]
        block.evaluations@.contains_key(x) ==> block.evaluations@[x] == m[(x + start) as usize]
}

/// Blocks hold consecutive pieces of the table.
pub proof fn lemma_block_table(block: SparseMLPoly, m: Map<usize, GoldilocksField>, log: nat, b: int)
    requires
        is_block(block, m, log, b),
        0 <= b,
        (b + 1) * pow2(log) <= usize::MAX + 1,
    ensures
        forall|x: int|
            0 <= x < pow2(log) ==> #[trigger] table_of(block.evaluations@, log)[x] == value_at(
                m,
                x + b * pow2(log),
            ),
{
    assert((b + 1) * pow2(log) == b * pow2(log) + pow2(log)) by (nonlinear_arith);
    assert(0 <= b * pow2(log)) by (nonlinear_arith)
        requires
            0 <= b,
    ;
    assert forall|x: int| 0 <= x < pow2(log) implies #[trigger] table_of(
        block.evaluations@,
        log,
    )[x] == value_at(m, x + b * pow2(log)) by {
        assert(block.evaluations@.contains_key(x as usize) <==> m.contains_key(
            (x + b * pow2(log)) as usize,
        ));
    }
}

proof fn lemma_take_to_set(s: Seq<usize>, i: int)
    requires
        0 <= i < s.len(),
    ensures
        s.take(i + 1).to_set() == s.take(i).to_set().insert(s[i]),
{
    let (a, b) = (s.take(i + 1), s.take(i));
    assert forall|x: usize| a.to_set().contains(x) <==> b.to_set().insert(s[i]).contains(x) by {
        if a.to_set().contains(x) {
            let k = choose|k: int| 0 <= k < a.len() && a[k] == x;
            if k < i {
                assert(b[k] == x);
            }
        }
        if b.to_set().contains(x) {
            let k = choose|k: int| 0 <= k < b.len() && b[k] == x;
            assert(a[k] == x);
        }
        if x == s[i] {
            assert(a[i] == x);
        }
    }
    assert(a.to_set() =~= b.to_set().insert(s[i]));
}

impl Clone for SparseMLPoly {
    fn clone(&self) -> (r: Self)
        ensures
            r.same(self),
    {
        let keys: Vec<usize> = keys_of(&self.evaluations);
        let mut evals: HashMap<usize, GoldilocksField> = HashMap::new();
        let mut i: usize = 0;
        while i < keys.len()
            invariant
                i <= keys.len(),
                keys@.to_set() == self.evaluations@.dom(),
                evals@.dom() == keys@.take(i as int).to_set(),
                forall|x: usize| #[trigger]
                    evals@.contains_key(x) ==> evals@[x] == self.evaluations@[x],
            decreases keys.len() - i,
        {
            let idx: usize = keys[i];
            proof {
                assert(keys@.to_set().contains(idx));
            }
            let v: GoldilocksField = lookup(&self.evaluations, idx);
            evals.insert(idx, v);
            proof {
                lemma_take_to_set(keys@, i as int);
                assert(evals@.dom() =~= keys@.take(i as int).to_set().insert(idx));
            }
            i = i + 1;
        }
        assert(keys@.take(i as int) =~= keys@);
        assert(evals@ =~= self.evaluations@);
        let mut indices: VecDeque<usize> = VecDeque::new();
        let mut j: usize = 0;
        while j < self.indices.len()
            invariant
                j <= self.indices.len(),
                indices@ == self.indices@.take(j as int),
            decreases self.indices.len() - j,
        {
            indices.push_back(self.indices[j]);
            j = j + 1;
            assert(indices@ =~= self.indices@.take(j as int));
        }
        assert(self.indices@.take(j as int) =~= self.indices@);
        SparseMLPoly { n: self.n, evaluations: evals, indices, selection: self.selection.clone() }
    }
}

/// The weight `eq(x, point)` of one corner.
fn corner_weight(x: usize, point: &[GoldilocksField], n: usize) -> (r: GoldilocksField)
    requires
        n <= point.len(),
        n < usize::BITS,
    ensures
        r@ == eq_weight(x as int, base_elems(point@).take(n as int)),
        r.canonical(),
{
    let ghost pt = base_elems(point@).take(n as int);
    let ghost f = |i: int| bit_factor(bit(x as int, i), pt[i]);
    let mut w: GoldilocksField = GoldilocksField(1);
    let mut i: usize = 0;
    while i < n
        invariant
            i <= n <= point.len(),
            n < usize::BITS,
            pt == base_elems(point@).take(n as int),
            f == (|i: int| bit_factor(bit(x as int, i), pt[i])),
            w@ == prod(i as nat, f),
            w.canonical(),
        decreases n - i,
    {
        proof {
            vstd::bits::lemma_usize_shr_is_div(x, i);
        }
        let b: usize = (x >> i) % 2;
        let factor: GoldilocksField = if b == 1 {
            point[i]
        } else {
            gl_sub(GoldilocksField(1), point[i])
        };
        assert(factor@ == f(i as int));
        w = gl_mul(w, factor);
        i = i + 1;
    }
    w
}

/// The weight `eq(x, point)` of one corner, for a point of the extension.
fn corner_weight_ext2(x: usize, point: &[GoldilocksExt2], n: usize) -> (r: GoldilocksExt2)
    requires
        n <= point.len(),
        n < usize::BITS,
    ensures
        r@ == eq_weight(x as int, ext_elems(point@).take(n as int)),
        r.canonical(),
{
    let ghost pt = ext_elems(point@).take(n as int);
    let ghost f = |i: int| bit_factor(bit(x as int, i), pt[i]);
    let mut w: GoldilocksExt2 = GoldilocksExt2::one();
    let mut i: usize = 0;
    while i < n
        invariant
            i <= n <= point.len(),
            n < usize::BITS,
            pt == ext_elems(point@).take(n as int),
            f == (|i: int| bit_factor(bit(x as int, i), pt[i])),
            w@ == prod(i as nat, f),
            w.canonical(),
        decreases n - i,
    {
        proof {
            vstd::bits::lemma_usize_shr_is_div(x, i);
        }
        let b: usize = (x >> i) % 2;
        let factor: GoldilocksExt2 = if b == 1 {
            point[i]
        } else {
            ext2_sub(GoldilocksExt2::one(), point[i])
        };
        assert(factor@ == f(i as int));
        w = ext2_mul(w, factor);
        i = i + 1;
    }
    w
}

/// One more key of the weighted sum over a prefix of the keys.
proof fn lemma_weighted_step(
    m: Map<usize, GoldilocksField>,
    keys: Seq<usize>,
    i: int,
    point: Seq<Elem>,
)
    requires
        m.dom().finite(),
        keys.no_duplicates(),
        keys.to_set() == m.dom(),
        0 <= i < keys.len(),
    ensures
        weighted_entries(m.restrict(keys.take(i + 1).to_set()), point) == weighted_entries(
            m.restrict(keys.take(i).to_set()),
            point,
        ) + eq_weight(keys[i] as int, point) * m[keys[i]]@,
{
    let (a, b) = (keys.take(i + 1).to_set(), keys.take(i).to_set());
    let k = keys[i];
    lemma_take_to_set(keys, i);
    assert(keys.to_set().contains(k));
    assert(!b.contains(k)) by {
        if b.contains(k) {
            let j = choose|j: int| 0 <= j < i && keys.take(i)[j] == k;
            assert(keys[j] == k);
        }
    }
    assert(m.restrict(a).remove(k) =~= m.restrict(b));
    assert(m.restrict(a).dom() =~= m.dom().intersect(a));
    lemma_weighted_remove(m.restrict(a), point, k);
}

impl MLPoly for SparseMLPoly {
    open spec fn wf(&self) -> bool {
        &&& self.n < usize::BITS
        &&& forall|k: usize| #[trigger]
            self.evaluations@.contains_key(k) ==> k < pow2(self.n as nat)
    }

    open spec fn vars(&self) -> nat {
        self.n as nat
    }

    open spec fn table(&self) -> Seq<Elem> {
        table_of(self.evaluations@, self.n as nat)
    }

    fn n(&self) -> (r: usize) {
        self.n
    }

    fn len(&self) -> (r: usize) {
        pow2_usize(self.n)
    }

    fn evaluate_at_point(&self, point: &[GoldilocksField]) -> (r: GoldilocksField)
        ensures
            r.canonical(),
    {
        let keys: Vec<usize> = keys_of(&self.evaluations);
        let ghost m = self.evaluations@;
        let ghost pt = base_elems(point@).take(self.n as int);
        let mut result: GoldilocksField = GoldilocksField(0);
        let mut i: usize = 0;
        assert(m.restrict(keys@.take(0).to_set()) =~= Map::empty());
        while i < keys.len()
            invariant
                i <= keys.len(),
                self.n < usize::BITS,
                self.n <= point.len(),
                m == self.evaluations@,
                m.dom().finite(),
                keys@.no_duplicates(),
                keys@.to_set() == m.dom(),
                pt == base_elems(point@).take(self.n as int),
                result@ == weighted_entries(m.restrict(keys@.take(i as int).to_set()), pt),
                result.canonical(),
            decreases keys.len() - i,
        {
            let idx: usize = keys[i];
            proof {
                assert(keys@.to_set().contains(idx));
                lemma_weighted_step(m, keys@, i as int, pt);
            }
            let val: GoldilocksField = lookup(&self.evaluations, idx);
            let w: GoldilocksField = corner_weight(idx, point, self.n);
            result = gl_add(result, gl_mul(w, val));
            i = i + 1;
        }
        proof {
            assert(keys@.take(i as int) =~= keys@);
            assert(m.restrict(m.dom()) =~= m);
            lemma_weighted_is_mle(m, pt);
        }
        result
    }

    fn evaluate_at_point_ext2(&self, point: &[GoldilocksExt2]) -> (r: GoldilocksExt2)
        ensures
            r.canonical(),
    {
        let keys: Vec<usize> = keys_of(&self.evaluations);
        let ghost m = self.evaluations@;
        let ghost pt = ext_elems(point@).take(self.n as int);
        let mut result: GoldilocksExt2 = GoldilocksExt2::zero();
        let mut i: usize = 0;
        assert(m.restrict(keys@.take(0).to_set()) =~= Map::empty());
        while i < keys.len()
            invariant
                i <= keys.len(),
                self.n < usize::BITS,
                self.n <= point.len(),
                m == self.evaluations@,
                m.dom().finite(),
                keys@.no_duplicates(),
                keys@.to_set() == m.dom(),
                pt == ext_elems(point@).take(self.n as int),
                result@ == weighted_entries(m.restrict(keys@.take(i as int).to_set()), pt),
                result.canonical(),
            decreases keys.len() - i,
        {
            let idx: usize = keys[i];
            proof {
                assert(keys@.to_set().contains(idx));
                lemma_weighted_step(m, keys@, i as int, pt);
            }
            let val: GoldilocksField = lookup(&self.evaluations, idx);
            let w: GoldilocksExt2 = corner_weight_ext2(idx, point, self.n);
            result = ext2_add(result, ext2_mul(w, GoldilocksExt2::from_base(val)));
            i = i + 1;
        }
        proof {
            assert(keys@.take(i as int) =~= keys@);
            assert(m.restrict(m.dom()) =~= m);
            lemma_weighted_is_mle(m, pt);
        }
        result
    }

    fn evaluations(&self) -> (r: Vec<GoldilocksField>) {
        self.to_dense().evaluations
    }

    fn index(&self, index: usize) -> (r: GoldilocksField)
        ensures
            r == word_at(self.evaluations@, index as int),
    {
        lookup(&self.evaluations, index)
    }
}

} // verus!
