//! Tensors that travel along the edges of a graph.
use vstd::arithmetic::power2::*;
use vstd::prelude::*;

use crate::field::elem::Elem;
use crate::field::{GoldilocksExt2, GoldilocksField};
use crate::poly::sparse::word_at;
use crate::poly::{DenseMLPoly, MLPoly, SparseMLPoly};
use crate::util::arith::{
    clog2, get_n, lemma_clog2, lemma_num_vars_prefix, lemma_usize_max, next_pow, num_vars, padded,
    pow2_usize,
};

verus! {

/// What part a tensor plays in a graph.
#[derive(Clone, Copy, Debug, PartialEq, Eq, Structural)]
pub enum Role {
    Auxiliary,
    Constant,
    Input,
    Output,
}

/// How the entries of a tensor are read.
#[derive(Clone, Copy, Debug, PartialEq, Eq, Structural)]
pub enum DataType {
    Uint,
    Int,
    Bool,
    Float,
}

/// How the entries of a tensor are held.
#[derive(Clone, Copy, Debug, PartialEq, Eq, Structural)]
pub enum PolyType {
    Dense,
    Sparse,
}

/// The polynomial behind a tensor.
#[derive(Debug)]
pub enum PolyData {
    Dense(DenseMLPoly),
    Sparse(SparseMLPoly),
}

/// The mathematical value of a polynomial behind a tensor.
#[verifier::ext_equal]
pub enum Data {
    Dense { n: usize, values: Seq<GoldilocksField> },
    Sparse {
        n: usize,
        entries: Map<usize, GoldilocksField>,
        indices: Seq<usize>,
        input_num_vars: usize,
        table_num_vars: usize,
        selection: Seq<(usize, usize)>,
    },
}

impl View for PolyData {
    type V = Data;

    open spec fn view(&self) -> Data {
        match *self {
            PolyData::Dense(p) => Data::Dense { n: p.n, values: p.evaluations@ },
            PolyData::Sparse(p) => Data::Sparse {
                n: p.n,
                entries: p.evaluations@,
                indices: p.indices@,
                input_num_vars: p.selection.input_num_vars,
                table_num_vars: p.selection.table_num_vars,
                selection: p.selection.selection@,
            },
        }
    }
}

impl Clone for PolyData {
    fn clone(&self) -> (r: Self)
        ensures
            r@ == self@,
    {
        match self {
            PolyData::Dense(p) => PolyData::Dense(p.clone()),
            PolyData::Sparse(p) => PolyData::Sparse(p.clone()),
        }
    }
}

impl Data {
    /// The word at an index: sparse data has zero wherever it holds nothing.
    pub open spec fn word(self, i: int) -> GoldilocksField {
        match self {
            Data::Dense { n, values } => values[i],
            Data::Sparse { entries, .. } => word_at(entries, i),
        }
    }

    /// The index lies within the data.
    pub open spec fn holds(self, i: int) -> bool {
        match self {
            Data::Dense { n, values } => 0 <= i < values.len(),
            Data::Sparse { .. } => 0 <= i <= usize::MAX,
        }
    }

    /// The data with zeros at those of the first `k` positions that lie in the padding of a tensor of
    /// the given shape.
    pub open spec fn cleared(self, shape: Seq<usize>, k: int) -> Data {
        match self {
            Data::Dense { n, values } => Data::Dense {
                n,
                values: Seq::new(
                    values.len(),
                    |i: int|
                        if i < k && !in_bounds(shape, i) {
                            GoldilocksField(0)
                        } else {
                            values[i]
                        },
                ),
            },
            Data::Sparse { n, entries, indices, input_num_vars, table_num_vars, selection } =>
                Data::Sparse {
                    n,
                    entries: Map::new(
                        |x: usize| entries.contains_key(x) || (x < k && !in_bounds(shape, x as int)),
                        |x: usize|
                            if x < k && !in_bounds(shape, x as int) {
                                GoldilocksField(0)
                            } else {
                                entries[x]
                            },
                    ),
                    indices,
                    input_num_vars,
                    table_num_vars,
                    selection,
                },
        }
    }

    /// The data with the word at one index replaced.
    pub open spec fn with(self, i: int, v: GoldilocksField) -> Data {
        match self {
            Data::Dense { n, values } => Data::Dense { n, values: values.update(i, v) },
            Data::Sparse { n, entries, indices, input_num_vars, table_num_vars, selection } =>
                Data::Sparse {
                    n,
                    entries: entries.insert(i as usize, v),
                    indices,
                    input_num_vars,
                    table_num_vars,
                    selection,
                },
        }
    }
}

impl MLPoly for PolyData {
    open spec fn wf(&self) -> bool {
        match *self {
            PolyData::Dense(p) => p.wf(),
            PolyData::Sparse(p) => p.wf(),
        }
    }

    open spec fn vars(&self) -> nat {
        match *self {
            PolyData::Dense(p) => p.vars(),
            PolyData::Sparse(p) => p.vars(),
        }
    }

    open spec fn table(&self) -> Seq<Elem> {
        match *self {
            PolyData::Dense(p) => p.table(),
            PolyData::Sparse(p) => p.table(),
        }
    }

    fn n(&self) -> (r: usize) {
        match self {
            PolyData::Dense(p) => p.n(),
            PolyData::Sparse(p) => p.n(),
        }
    }

    fn len(&self) -> (r: usize) {
        match self {
            PolyData::Dense(p) => p.len(),
            PolyData::Sparse(p) => MLPoly::len(p),
        }
    }

    fn evaluate_at_point(&self, point: &[GoldilocksField]) -> (r: GoldilocksField) {
        match self {
            PolyData::Dense(p) => p.evaluate_at_point(point),
            PolyData::Sparse(p) => p.evaluate_at_point(point),
        }
    }

    fn evaluate_at_point_ext2(&self, point: &[GoldilocksExt2]) -> (r: GoldilocksExt2) {
        match self {
            PolyData::Dense(p) => p.evaluate_at_point_ext2(point),
            PolyData::Sparse(p) => p.evaluate_at_point_ext2(point),
        }
    }

    fn evaluations(&self) -> (r: Vec<GoldilocksField>) {
        match self {
            PolyData::Dense(p) => p.evaluations(),
            PolyData::Sparse(p) => p.evaluations(),
        }
    }

    fn index(&self, index: usize) -> (r: GoldilocksField) {
        match self {
            PolyData::Dense(p) => p.index(index),
            PolyData::Sparse(p) => p.index(index),
        }
    }
}

impl PolyData {
    /// The word at an index.
    pub fn word(&self, index: usize) -> (r: GoldilocksField)
        requires
            self@.holds(index as int),
        ensures
            r == self@.word(index as int),
    {
        match self {
            PolyData::Dense(p) => p.evaluations[index],
            PolyData::Sparse(p) => crate::poly::sparse::lookup(&p.evaluations, index),
        }
    }

    /// Replaces the word at an index.
    pub fn set_word(&mut self, index: usize, value: GoldilocksField)
        requires
            old(self)@.holds(index as int),
        ensures
            final(self)@ == old(self)@.with(index as int, value),
            final(self)@.word(index as int) == value,
            forall|j: int|
                old(self)@.holds(j) && j != index ==> #[trigger] final(self)@.word(j) == old(
                    self,
                )@.word(j),
            forall|j: int| #[trigger] final(self)@.holds(j) == old(self)@.holds(j),
    {
        match self {
            PolyData::Dense(p) => p.evaluations.set(index, value),
            PolyData::Sparse(p) => p.set_index(index, value),
        }
    }
}

/// A tensor: its shape, its entries where they are known, and how to read them.
#[derive(Debug)]
pub struct Witness {
    pub shape: Vec<usize>,
    pub data: Option<PolyData>,
    pub poly_type: PolyType,
    pub data_type: DataType,
    pub sf: usize,
    pub role: Role,
}

/// The mathematical value of a tensor.
#[verifier::ext_equal]
pub struct Tensor {
    pub shape: Seq<usize>,
    pub data: Option<Data>,
    pub poly_type: PolyType,
    pub data_type: DataType,
    pub sf: usize,
    pub role: Role,
}

/// The value of optional data.
pub open spec fn data_view(d: Option<PolyData>) -> Option<Data> {
    match d {
        Some(p) => Some(p@),
        None => None,
    }
}

impl View for Witness {
    type V = Tensor;

    open spec fn view(&self) -> Tensor {
        Tensor {
            shape: self.shape@,
            data: data_view(self.data),
            poly_type: self.poly_type,
            data_type: self.data_type,
            sf: self.sf,
            role: self.role,
        }
    }
}

/// A tensor whose entries are not known yet.
pub open spec fn unknown(shape: Seq<usize>, data_type: DataType, sf: usize, role: Role) -> Tensor {
    Tensor { shape, data: None, poly_type: PolyType::Dense, data_type, sf, role }
}

/// Words padded with zeros to a given length.
pub open spec fn zero_extended(words: Seq<GoldilocksField>, len: nat) -> Seq<GoldilocksField> {
    Seq::new(len, |i: int| if i < words.len() { words[i] } else { GoldilocksField(0) })
}

/// A tensor with the given entries, padded with zeros up to the size of its polynomial.
pub open spec fn known(
    shape: Seq<usize>,
    words: Seq<GoldilocksField>,
    data_type: DataType,
    sf: usize,
    role: Role,
) -> Tensor {
    Tensor {
        shape,
        data: Some(
            Data::Dense {
                n: num_vars(shape) as usize,
                values: zero_extended(words, pow2(num_vars(shape))),
            },
        ),
        poly_type: PolyType::Dense,
        data_type,
        sf,
        role,
    }
}

/// `words` fit a tensor of the given shape.
pub open spec fn fits(shape: Seq<usize>, words: nat) -> bool {
    &&& num_vars(shape) < usize::BITS
    &&& words <= pow2(num_vars(shape))
}

/// Position of an entry when the first dimension varies fastest.
pub open spec fn flat_index(shape: Seq<usize>, indices: Seq<usize>) -> int
    decreases indices.len(),
{
    if indices.len() == 0 {
        0
    } else {
        let k = indices.len() - 1;
        flat_index(shape, indices.drop_last()) + indices.last() * pow2(num_vars(shape.take(k)))
    }
}

/// The flat position, with the last dimension varying fastest, lies inside the tensor and not in
/// the padding.
pub open spec fn in_bounds(shape: Seq<usize>, i: int) -> bool
    decreases shape.len(),
{
    if shape.len() == 0 {
        true
    } else {
        let p = padded(shape.last() as nat) as int;
        i % p < shape.last() && in_bounds(shape.drop_last(), i / p)
    }
}

/// Some dimension is not a power of two.
pub open spec fn has_padding(shape: Seq<usize>) -> bool {
    exists|k: int| 0 <= k < shape.len() && #[trigger] shape[k] != padded(shape[k] as nat)
}

/// A dimension of a tensor that fits in memory can be padded.
pub proof fn lemma_dim_small(shape: Seq<usize>, k: int)
    requires
        0 <= k < shape.len(),
        num_vars(shape) < usize::BITS,
    ensures
        shape[k] <= usize::MAX / 2 + 1,
        clog2(shape[k] as nat) < usize::BITS,
        num_vars(shape.take(k + 1)) == num_vars(shape.take(k)) + clog2(shape[k] as nat),
{
    lemma_num_vars_prefix(shape, k + 1);
    assert(shape.take(k + 1).drop_last() =~= shape.take(k));
    lemma_clog2(shape[k] as nat);
    lemma_usize_max();
    let c = clog2(shape[k] as nat);
    lemma_pow2_unfold(usize::BITS as nat);
    if c < usize::BITS - 1 {
        lemma_pow2_strictly_increases(c, (usize::BITS - 1) as nat);
    }
}

impl Clone for Witness {
    fn clone(&self) -> (r: Self)
        ensures
            r@ == self@,
    {
        let data: Option<PolyData> = match &self.data {
            Some(d) => Some(d.clone()),
            None => None,
        };
        Witness {
            shape: clone_words(&self.shape),
            data,
            poly_type: self.poly_type,
            data_type: self.data_type,
            sf: self.sf,
            role: self.role,
        }
    }
}

/// A copy of a list of numbers.
pub fn clone_words(v: &[usize]) -> (r: Vec<usize>)
    ensures
        r@ == v@,
{
    let mut r: Vec<usize> = Vec::new();
    let mut i: usize = 0;
    while i < v.len()
        invariant
            i <= v.len(),
            r@ == v@.take(i as int),
        decreases v.len() - i,
    {
        r.push(v[i]);
        i = i + 1;
        assert(r@ =~= v@.take(i as int));
    }
    assert(v@.take(i as int) =~= v@);
    r
}

impl Witness {
    /// A tensor with the given entries, padded with zeros up to the size of its polynomial.
    pub fn new(
        shape: Vec<usize>,
        data: Vec<GoldilocksField>,
        data_type: DataType,
        sf: usize,
        role: Role,
    ) -> (r: Self)
        requires
            fits(shape@, data.len() as nat),
        ensures
            r@ == known(shape@, data@, data_type, sf, role),
            r.data is Some,
            r.data->0 is Dense,
            r.data->0->Dense_0.valid(),
    {
        let n: usize = get_n(shape.as_slice());
        let size: usize = pow2_usize(n);
        let mut words: Vec<GoldilocksField> = data;
        let ghost given = data@;
        while words.len() < size
            invariant
                words.len() <= size,
                given.len() <= words.len(),
                words@ == zero_extended(given, words.len() as nat),
            decreases size - words.len(),
        {
            words.push(GoldilocksField(0));
            assert(words@ =~= zero_extended(given, words.len() as nat));
        }
        Witness {
            shape,
            data: Some(PolyData::Dense(DenseMLPoly::new(n, words))),
            poly_type: PolyType::Dense,
            data_type,
            sf,
            role,
        }
    }

    /// A tensor held by its nonzero entries.
    pub fn new_sparse(
        shape: Vec<usize>,
        data: SparseMLPoly,
        data_type: DataType,
        sf: usize,
        role: Role,
    ) -> (r: Self)
        ensures
            r.shape == shape,
            r.data == Some(PolyData::Sparse(data)),
            r.poly_type == PolyType::Sparse,
            r.data_type == data_type,
            r.sf == sf,
            r.role == role,
    {
        Witness {
            shape,
            data: Some(PolyData::Sparse(data)),
            poly_type: PolyType::Sparse,
            data_type,
            sf,
            role,
        }
    }

    /// A tensor with a polynomial that need not have the size of the shape, such as a table of
    /// bits.
    pub fn new_dense_poly(
        shape: Vec<usize>,
        poly: DenseMLPoly,
        data_type: DataType,
        sf: usize,
        role: Role,
    ) -> (r: Self)
        ensures
            r.shape == shape,
            r.data == Some(PolyData::Dense(poly)),
            r.poly_type == PolyType::Dense,
            r.data_type == data_type,
            r.sf == sf,
            r.role == role,
    {
        Witness {
            shape,
            data: Some(PolyData::Dense(poly)),
            poly_type: PolyType::Dense,
            data_type,
            sf,
            role,
        }
    }

    /// A tensor whose entries are not known yet.
    pub fn new_wo_data(shape: Vec<usize>, data_type: DataType, sf: usize, role: Role) -> (r: Self)
        ensures
            r@ == unknown(shape@, data_type, sf, role),
            r.shape == shape,
    {
        Witness { shape, data: None, poly_type: PolyType::Dense, data_type, sf, role }
    }

    /// Forgets the entries.
    pub fn clear_data(&mut self)
        ensures
            final(self)@ == (Tensor { data: None, ..old(self)@ }),
    {
        self.data = None;
    }

    /// The entry at the given indices, with the first dimension varying fastest.
    pub fn get(&self, indices: &[usize]) -> (r: GoldilocksField)
        requires
            self.data is Some,
            num_vars(self.shape@) < usize::BITS,
            indices.len() <= self.shape.len() + 1,
            flat_index(self.shape@, indices@) <= usize::MAX,
            self.data->0@.holds(flat_index(self.shape@, indices@)),
        ensures
            r == self.data->0@.word(flat_index(self.shape@, indices@)),
    {
        let mut index: usize = 0;
        let mut stride: usize = 1;
        let mut i: usize = 0;
        proof {
            lemma2_to64();
        }
        while i < indices.len()
            invariant
                i <= indices.len() <= self.shape.len() + 1,
                num_vars(self.shape@) < usize::BITS,
                flat_index(self.shape@, indices@) <= usize::MAX,
                index == flat_index(self.shape@, indices@.take(i as int)),
                i <= self.shape.len() ==> stride == pow2(num_vars(self.shape@.take(i as int))),
            decreases indices.len() - i,
        {
            proof {
                assert(indices@.take(i as int + 1).drop_last() =~= indices@.take(i as int));
                lemma_flat_index_take(self.shape@, indices@, i as int + 1);
                assert(0 <= indices[i as int] * stride) by (nonlinear_arith)
                    requires
                        0 <= indices[i as int],
                        0 <= stride,
                ;
                assert(indices@.take(i as int).len() == i);
                lemma_flat_index_nonneg(self.shape@, indices@.take(i as int));
            }
            index = index + indices[i] * stride;
            if i < self.shape.len() {
                proof {
                    lemma_dim_small(self.shape@, i as int);
                    lemma_num_vars_prefix(self.shape@, i as int + 1);
                    lemma_pow2_adds(
                        num_vars(self.shape@.take(i as int)),
                        clog2(self.shape[i as int] as nat),
                    );
                    lemma_usize_max();
                    lemma_pow2_strictly_increases(
                        num_vars(self.shape@.take(i as int + 1)),
                        usize::BITS as nat,
                    );
                }
                stride = stride * next_pow(self.shape[i]);
            }
            i = i + 1;
        }
        assert(indices@.take(i as int) =~= indices@);
        match &self.data {
            Some(d) => d.word(index),
            None => GoldilocksField(0),
        }
    }

    /// Sets every entry of the padding to zero, where the shape has any.
    pub fn zero_pad_if_needed(&mut self)
        requires
            old(self).data is Some && has_padding(old(self).shape@) ==> num_vars(old(self).shape@)
                < usize::BITS && old(self).data->0@.holds(pow2(num_vars(old(self).shape@)) - 1),
            forall|k: int|
                0 <= k < old(self).shape.len() ==> #[trigger] old(self).shape[k] <= usize::MAX / 2
                    + 1,
        ensures
            final(self).shape@ == old(self).shape@,
            final(self).poly_type == old(self).poly_type,
            final(self).data_type == old(self).data_type,
            final(self).sf == old(self).sf,
            final(self).role == old(self).role,
            (old(self).data is None || !has_padding(old(self).shape@)) ==> final(self)@ == old(
                self,
            )@,
            old(self).data is Some && has_padding(old(self).shape@) ==> final(self)@.data == Some(
                old(self).data->0@.cleared(
                    old(self).shape@,
                    pow2(num_vars(old(self).shape@)) as int,
                ),
            ),
    {
        let mut needs_fix: bool = false;
        let mut k: usize = 0;
        while k < self.shape.len()
            invariant
                k <= self.shape.len(),
                forall|j: int|
                    0 <= j < self.shape.len() ==> #[trigger] self.shape[j] <= usize::MAX / 2 + 1,
                needs_fix <==> exists|j: int|
                    0 <= j < k && #[trigger] self.shape@[j] != padded(self.shape@[j] as nat),
            decreases self.shape.len() - k,
        {
            assert(self.shape[k as int] <= usize::MAX / 2 + 1);
            if self.shape[k] != next_pow(self.shape[k]) {
                assert(self.shape@[k as int] != padded(self.shape@[k as int] as nat));
                needs_fix = true;
            }
            k = k + 1;
        }
        if !needs_fix {
            return;
        }
        assert(has_padding(self.shape@));
        match &mut self.data {
            None => {},
            Some(data) => {
                zero_padding(&self.shape, data);
            },
        }
    }
}

/// Sets every entry of the padding of a tensor of the given shape to zero.
fn zero_padding(shape: &Vec<usize>, data: &mut PolyData)
    requires
        num_vars(shape@) < usize::BITS,
        old(data)@.holds(pow2(num_vars(shape@)) - 1),
    ensures
        final(data)@ == old(data)@.cleared(shape@, pow2(num_vars(shape@)) as int),
{
    let n: usize = get_n(shape.as_slice());
    let total: usize = pow2_usize(n);
    let mut i: usize = 0;
    let ghost before = data@;
    proof {
        lemma_cleared_none(before, shape@);
    }
    while i < total
        invariant
            i <= total,
            total == pow2(num_vars(shape@)),
            num_vars(shape@) < usize::BITS,
            before.holds(total - 1),
            data@ == before.cleared(shape@, i as int),
        decreases total - i,
    {
        let inside: bool = is_in_bounds(shape, i);
        if !inside {
            assert(before.holds(i as int));
            data.set_word(i, GoldilocksField(0));
        }
        i = i + 1;
        proof {
            lemma_cleared_step(before, shape@, i as int);
        }
    }
}

/// Clearing no position changes nothing.
proof fn lemma_cleared_none(d: Data, shape: Seq<usize>)
    ensures
        d.cleared(shape, 0) == d,
{
    match d {
        Data::Dense { values, .. } => {
            assert(d.cleared(shape, 0)->values =~= values);
        },
        Data::Sparse { entries, .. } => {
            assert(d.cleared(shape, 0)->entries =~= entries);
        },
    }
}

/// Clearing one more position changes at most that position.
proof fn lemma_cleared_step(d: Data, shape: Seq<usize>, k: int)
    requires
        0 < k <= usize::MAX,
        d.holds(k - 1),
    ensures
        d.cleared(shape, k) == if in_bounds(shape, k - 1) {
            d.cleared(shape, k - 1)
        } else {
            d.cleared(shape, k - 1).with(k - 1, GoldilocksField(0))
        },
{
    let (a, b) = (d.cleared(shape, k), d.cleared(shape, k - 1));
    match d {
        Data::Dense { n, values } => {
            if in_bounds(shape, k - 1) {
                assert(a->values =~= b->values);
            } else {
                assert(a->values =~= b->values.update(k - 1, GoldilocksField(0)));
            }
        },
        Data::Sparse { entries, .. } => {
            if in_bounds(shape, k - 1) {
                assert(a->entries =~= b->entries);
            } else {
                assert(a->entries =~= b->entries.insert((k - 1) as usize, GoldilocksField(0)));
            }
        },
    }
}

/// Whether a flat position lies inside the tensor and not in the padding.
pub fn is_in_bounds(shape: &Vec<usize>, flat: usize) -> (r: bool)
    requires
        num_vars(shape@) < usize::BITS,
    ensures
        r == in_bounds(shape@, flat as int),
{
    let mut remaining: usize = flat;
    let mut k: usize = shape.len();
    assert(shape@.take(k as int) =~= shape@);
    while k > 0
        invariant
            k <= shape.len(),
            num_vars(shape@) < usize::BITS,
            in_bounds(shape@.take(k as int), remaining as int) == in_bounds(shape@, flat as int),
        decreases k,
    {
        k = k - 1;
        proof {
            lemma_dim_small(shape@, k as int);
            assert(shape@.take(k as int + 1).drop_last() =~= shape@.take(k as int));
            assert(shape@.take(k as int + 1).last() == shape[k as int]);
        }
        let p: usize = next_pow(shape[k]);
        if remaining % p >= shape[k] {
            return false;
        }
        remaining = remaining / p;
    }
    true
}

proof fn lemma_flat_index_nonneg(shape: Seq<usize>, indices: Seq<usize>)
    ensures
        0 <= flat_index(shape, indices),
    decreases indices.len(),
{
    if indices.len() > 0 {
        lemma_flat_index_nonneg(shape, indices.drop_last());
        let p = pow2(num_vars(shape.take(indices.len() - 1)));
        assert(0 <= indices.last() * p) by (nonlinear_arith)
            requires
                0 <= indices.last(),
                0 <= p,
        ;
    }
}

proof fn lemma_flat_index_take(shape: Seq<usize>, indices: Seq<usize>, k: int)
    requires
        0 <= k <= indices.len(),
    ensures
        0 <= flat_index(shape, indices.take(k)) <= flat_index(shape, indices),
    decreases indices.len() - k,
{
    lemma_flat_index_nonneg(shape, indices.take(k));
    if k < indices.len() {
        lemma_flat_index_take(shape, indices, k + 1);
        assert(indices.take(k + 1).drop_last() =~= indices.take(k));
        let p = pow2(num_vars(shape.take(k)));
        assert(0 <= indices[k] * p) by (nonlinear_arith)
            requires
                0 <= indices[k],
                0 <= p,
        ;
    } else {
        assert(indices.take(k) =~= indices);
    }
}

} // verus!
