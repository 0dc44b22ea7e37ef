//! Dense numeric arrays of dynamic rank, with shape manipulation and
//! value generation (deterministic fills, random permutations, and the
//! decision logic behind random sampling and weight initialization).
//!
//! Elements are 32-bit floats carried as their IEEE-754 bit patterns, so
//! that shape logic, fill logic and threshold logic can be stated and
//! checked exactly.  Floating-point arithmetic itself cannot be reasoned
//! about here; sampling under a named distribution is done by a caller,
//! which hands the drawn bit patterns to the checked constructors below.

use vstd::prelude::*;
use vstd::arithmetic::div_mod::lemma_fundamental_div_mod;
use vstd::arithmetic::div_mod::lemma_fundamental_div_mod_converse;
use vstd::pervasive::VecAdditionalExecFns;

verus! {

/// Bit pattern of the 32-bit float `0.0`.
pub const F32_ZERO_BITS: u32 = 0;

/// Bit pattern of the 32-bit float `1.0`.
pub const F32_ONE_BITS: u32 = 0x3F80_0000;

/// Bit pattern of the 64-bit float `1.0`.
pub const F64_ONE_BITS: u64 = 0x3FF0_0000_0000_0000;

/// Product of all dimension sizes of a shape: the number of elements a
/// dense array of that shape holds.
pub open spec fn size_of_shape(s: Seq<usize>) -> nat
    decreases s.len(),
{
    if s.len() == 0 {
        1
    } else {
        size_of_shape(s.drop_last()) * (s.last() as nat)
    }
}

/// A dense, dynamic-rank numeric array: an explicit shape and a contiguous
/// row-major element buffer, each element the bit pattern of a 32-bit float.
pub struct NdArray {
    pub shape: Vec<usize>,
    pub data: Vec<u32>,
}

impl NdArray {
    /// The buffer holds exactly one element per position of the shape.
    pub open spec fn wf(&self) -> bool {
        self.data@.len() == size_of_shape(self.shape@)
    }

    /// A fresh array with the same shape and the same elements, owning
    /// its own buffer.
    pub fn deep_copy(&self) -> (r: NdArray)
        ensures
            r.shape@ == self.shape@,
            r.data@ == self.data@,
    {
        NdArray { shape: copy_shape(&self.shape), data: copy_data(&self.data) }
    }
}

/// An array constrained to exactly rank 2.
pub struct Mat {
    pub rows: usize,
    pub cols: usize,
    pub data: Vec<u32>,
}

impl Mat {
    /// The buffer holds one element per matrix position.
    pub open spec fn wf(&self) -> bool {
        self.data@.len() == self.rows * self.cols
    }
}

/// Splitting a shape splits its size: the whole product is the product of
/// a prefix times the product of the rest.
proof fn lemma_size_split(s: Seq<usize>, k: int)
    requires
        0 <= k <= s.len(),
    ensures
        size_of_shape(s) == size_of_shape(s.take(k)) * size_of_shape(s.skip(k)),
    decreases s.len() - k,
{
    if k == s.len() {
        assert(s.take(k) =~= s);
        assert(s.skip(k) =~= Seq::<usize>::empty());
        assert(size_of_shape(Seq::<usize>::empty()) == 1);
        assert(size_of_shape(s) * 1nat == size_of_shape(s)) by (nonlinear_arith);
    } else {
        lemma_size_split(s.drop_last(), k);
        assert(s.drop_last().take(k) =~= s.take(k));
        assert(s.drop_last().skip(k) =~= s.skip(k).drop_last());
        assert(s.skip(k).len() > 0);
        let a = size_of_shape(s.take(k));
        let b = size_of_shape(s.skip(k).drop_last());
        let c = s.last() as nat;
        assert(size_of_shape(s.skip(k)) == b * c);
        assert(s.skip(k).last() == s.last());
        assert(size_of_shape(s) == size_of_shape(s.drop_last()) * c);
        assert(size_of_shape(s.drop_last()) == a * b);
        assert((a * b) * c == a * (b * c)) by (nonlinear_arith);
        assert(size_of_shape(s) == a * size_of_shape(s.skip(k)));
    }
}

/// Isolating one dimension: the size is the prefix size, times that
/// dimension, times the suffix size.
proof fn lemma_size_split3(s: Seq<usize>, k: int)
    requires
        0 <= k < s.len(),
    ensures
        size_of_shape(s) == size_of_shape(s.take(k)) * (s[k] as nat) * size_of_shape(s.skip(k + 1)),
{
    lemma_size_split(s, k);
    lemma_size_split(s.skip(k), 1);
    assert(s.skip(k).take(1) =~= seq![s[k]]);
    assert(seq![s[k]].drop_last() =~= Seq::<usize>::empty());
    assert(size_of_shape(Seq::<usize>::empty()) == 1);
    assert(size_of_shape(seq![s[k]]) == 1 * (s[k] as nat));
    assert(s.skip(k).skip(1) =~= s.skip(k + 1));
    let a = size_of_shape(s.take(k));
    let b = s[k] as nat;
    let c = size_of_shape(s.skip(k + 1));
    assert(size_of_shape(s.skip(k)) == (1 * b) * c);
    assert((1 * b) * c == b * c) by (nonlinear_arith);
    assert(a * (b * c) == a * b * c) by (nonlinear_arith);
}

/// Unfolding step: the size of the first `k + 1` dimensions is the size of
/// the first `k` times the `k`-th.
proof fn lemma_size_take_step(s: Seq<usize>, k: int)
    requires
        0 <= k < s.len(),
    ensures
        size_of_shape(s.take(k + 1)) == size_of_shape(s.take(k)) * (s[k] as nat),
{
    assert(s.take(k + 1).drop_last() =~= s.take(k));
    assert(s.take(k + 1).last() == s[k]);
}

/// A shape with a zero dimension has size zero.
proof fn lemma_size_zero_dim(s: Seq<usize>, k: int)
    requires
        0 <= k < s.len(),
        s[k] == 0,
    ensures
        size_of_shape(s) == 0,
{
    lemma_size_split(s, k + 1);
    lemma_size_take_step(s, k);
    assert(size_of_shape(s.take(k)) * 0nat == 0) by (nonlinear_arith);
    assert(size_of_shape(s.take(k + 1)) == 0);
    assert(0nat * size_of_shape(s.skip(k + 1)) == 0) by (nonlinear_arith);
}

/// A shape all of whose dimensions are positive has positive size.
proof fn lemma_size_pos(s: Seq<usize>)
    requires
        forall|i: int| 0 <= i < s.len() ==> s[i] >= 1,
    ensures
        size_of_shape(s) >= 1,
    decreases s.len(),
{
    if s.len() > 0 {
        lemma_size_pos(s.drop_last());
        assert(size_of_shape(s.drop_last()) * (s.last() as nat) >= 1) by (nonlinear_arith)
            requires
                size_of_shape(s.drop_last()) >= 1,
                s.last() >= 1,
        ;
    }
}

/// When every dimension is positive, a prefix's size is no larger than the
/// whole shape's.
proof fn lemma_size_take_le(s: Seq<usize>, k: int)
    requires
        0 <= k <= s.len(),
        forall|i: int| 0 <= i < s.len() ==> s[i] >= 1,
    ensures
        size_of_shape(s.take(k)) <= size_of_shape(s),
{
    lemma_size_split(s, k);
    assert(forall|i: int| 0 <= i < s.skip(k).len() ==> s.skip(k)[i] >= 1);
    lemma_size_pos(s.skip(k));
    assert(size_of_shape(s.take(k)) <= size_of_shape(s.take(k)) * size_of_shape(s.skip(k)))
        by (nonlinear_arith)
        requires
            size_of_shape(s.skip(k)) >= 1,
    ;
}

/// Multiplying against a bound: for positive `d`, `a * d` stays within `n`
/// exactly when `a` is at most `n / d`.
proof fn lemma_mul_within(a: nat, d: nat, n: nat)
    requires
        d >= 1,
    ensures
        a <= n / d ==> a * d <= n,
        a > n / d ==> a * d > n,
{
    lemma_fundamental_div_mod(n as int, d as int);
    let q = (n as int) / (d as int);
    let m = (n as int) % (d as int);
    assert(n == d * q + m);
    assert(0 <= m < d);
    assert(n / d == q);
    if a <= n / d {
        assert(a * d <= q * d) by (nonlinear_arith)
            requires a <= q, d >= 1,
        ;
        assert(q * d <= n) by (nonlinear_arith)
            requires n == d * q + m, m >= 0,
        ;
    } else {
        assert(a * d >= (q + 1) * d) by (nonlinear_arith)
            requires a >= q + 1, d >= 1,
        ;
        assert((q + 1) * d > n) by (nonlinear_arith)
            requires n == d * q + m, m < d,
        ;
    }
}

/// Number of elements of a dense array of the given shape.
pub fn size_of_shape_exec(shape: &Vec<usize>) -> (n: usize)
    requires
        size_of_shape(shape@) <= usize::MAX,
    ensures
        n == size_of_shape(shape@),
{
    let mut k: usize = 0;
    while k < shape.len()
        invariant
            0 <= k <= shape@.len(),
            forall|i: int| 0 <= i < k ==> shape@[i] >= 1,
        decreases shape@.len() - k,
    {
        if shape[k] == 0 {
            proof {
                lemma_size_zero_dim(shape@, k as int);
            }
            return 0;
        }
        k = k + 1;
    }
    let mut n: usize = 1;
    let mut j: usize = 0;
    while j < shape.len()
        invariant
            0 <= j <= shape@.len(),
            forall|i: int| 0 <= i < shape@.len() ==> shape@[i] >= 1,
            n == size_of_shape(shape@.take(j as int)),
            size_of_shape(shape@) <= usize::MAX,
        decreases shape@.len() - j,
    {
        proof {
            lemma_size_take_step(shape@, j as int);
            lemma_size_take_le(shape@, j + 1);
        }
        n = n * shape[j];
        j = j + 1;
    }
    proof {
        assert(shape@.take(shape@.len() as int) =~= shape@);
    }
    n
}

/// Whether a dense array of the given shape holds exactly `n` elements.
/// Decided without overflowing, whatever the shape.
fn size_matches(shape: &Vec<usize>, n: usize) -> (b: bool)
    ensures
        b <==> size_of_shape(shape@) == n,
{
    let mut k: usize = 0;
    while k < shape.len()
        invariant
            0 <= k <= shape@.len(),
            forall|i: int| 0 <= i < k ==> shape@[i] >= 1,
        decreases shape@.len() - k,
    {
        if shape[k] == 0 {
            proof {
                lemma_size_zero_dim(shape@, k as int);
            }
            return n == 0;
        }
        k = k + 1;
    }
    let mut acc: usize = 1;
    let mut j: usize = 0;
    while j < shape.len()
        invariant
            0 <= j <= shape@.len(),
            forall|i: int| 0 <= i < shape@.len() ==> shape@[i] >= 1,
            acc == size_of_shape(shape@.take(j as int)),
        decreases shape@.len() - j,
    {
        let d = shape[j];
        proof {
            lemma_size_take_step(shape@, j as int);
            lemma_mul_within(acc as nat, d as nat, n as nat);
            lemma_size_take_le(shape@, j + 1);
        }
        if acc > n / d {
            return false;
        }
        acc = acc * d;
        j = j + 1;
    }
    proof {
        assert(shape@.take(shape@.len() as int) =~= shape@);
    }
    acc == n
}

/// An independent copy of a shape vector.
fn copy_shape(v: &Vec<usize>) -> (r: Vec<usize>)
    ensures
        r@ == v@,
{
    let mut r: Vec<usize> = Vec::new();
    let mut i: usize = 0;
    while i < v.len()
        invariant
            0 <= i <= v@.len(),
            r@ == v@.take(i as int),
        decreases v@.len() - i,
    {
        r.push(v[i]);
        proof {
            assert(v@.take(i + 1) =~= v@.take(i as int).push(v@[i as int]));
        }
        i = i + 1;
    }
    proof {
        assert(v@.take(v@.len() as int) =~= v@);
    }
    r
}

/// An independent copy of an element buffer.
fn copy_data(v: &Vec<u32>) -> (r: Vec<u32>)
    ensures
        r@ == v@,
{
    let mut r: Vec<u32> = Vec::new();
    let mut i: usize = 0;
    while i < v.len()
        invariant
            0 <= i <= v@.len(),
            r@ == v@.take(i as int),
        decreases v@.len() - i,
    {
        r.push(v[i]);
        proof {
            assert(v@.take(i + 1) =~= v@.take(i as int).push(v@[i as int]));
        }
        i = i + 1;
    }
    proof {
        assert(v@.take(v@.len() as int) =~= v@);
    }
    r
}

/// Create an array of the given shape from a scalar bit pattern, one copy
/// per element.
fn filled(shape: &Vec<usize>, v: u32) -> (r: NdArray)
    requires
        size_of_shape(shape@) <= usize::MAX,
    ensures
        r.wf(),
        r.shape@ == shape@,
        forall|i: int| 0 <= i < r.data@.len() ==> r.data@[i] == v,
{
    let n = size_of_shape_exec(shape);
    let mut data: Vec<u32> = Vec::new();
    while data.len() < n
        invariant
            data@.len() <= n,
            forall|i: int| 0 <= i < data@.len() ==> data@[i] == v,
        decreases n - data@.len(),
    {
        data.push(v);
    }
    NdArray { shape: copy_shape(shape), data }
}

/// An array of the given shape filled with zeros.
pub fn zeros(shape: &Vec<usize>) -> (r: NdArray)
    requires
        size_of_shape(shape@) <= usize::MAX,
    ensures
        r.wf(),
        r.shape@ == shape@,
        forall|i: int| 0 <= i < r.data@.len() ==> r.data@[i] == F32_ZERO_BITS,
{
    filled(shape, F32_ZERO_BITS)
}

/// An array of the given shape filled with ones.
pub fn ones(shape: &Vec<usize>) -> (r: NdArray)
    requires
        size_of_shape(shape@) <= usize::MAX,
    ensures
        r.wf(),
        r.shape@ == shape@,
        forall|i: int| 0 <= i < r.data@.len() ==> r.data@[i] == F32_ONE_BITS,
{
    filled(shape, F32_ONE_BITS)
}

/// A rank-1, length-1 array holding the one given scalar.
pub fn from_scalar(val: u32) -> (r: NdArray)
    ensures
        r.wf(),
        r.shape@ == seq![1usize],
        r.data@ == seq![val],
{
    let mut shape: Vec<usize> = Vec::new();
    shape.push(1);
    let mut data: Vec<u32> = Vec::new();
    data.push(val);
    proof {
        assert(shape@ =~= seq![1usize]);
        assert(data@ =~= seq![val]);
        assert(seq![1usize].drop_last() =~= Seq::<usize>::empty());
        assert(size_of_shape(Seq::<usize>::empty()) == 1);
        assert(size_of_shape(seq![1usize]) == 1 * 1nat);
    }
    NdArray { shape, data }
}

/// An array of the given shape whose elements are the given bit patterns,
/// in row-major order; refused when the buffer does not fit the shape.
pub fn array_from_bits(shape: &Vec<usize>, data: Vec<u32>) -> (r: Option<NdArray>)
    ensures
        r is Some <==> data@.len() == size_of_shape(shape@),
        r matches Some(a) ==> a.wf() && a.shape@ == shape@ && a.data@ == data@,
{
    if size_matches(shape, data.len()) {
        Some(NdArray { shape: copy_shape(shape), data })
    } else {
        None
    }
}

/// Map unit-interval draws to a Bernoulli array: element `i` is `1.0` when
/// draw `i` lies strictly below the probability `p`, else `0.0`.
///
/// Draws and probability are 64-bit float bit patterns; on non-negative
/// IEEE-754 doubles the unsigned order of the patterns is the numeric
/// order, so the comparison below is the numeric one for any `p` in
/// `[0, 1]` and any draw from `[0, 1)`.
pub fn bernoulli_from_units(shape: &Vec<usize>, units: &Vec<u64>, p: u64) -> (r: Option<NdArray>)
    requires
        p <= F64_ONE_BITS,
    ensures
        r is Some <==> units@.len() == size_of_shape(shape@),
        r matches Some(a) ==> a.wf() && a.shape@ == shape@ && a.data@.len() == units@.len()
            && forall|i: int| 0 <= i < units@.len() ==> a.data@[i] == (if units@[i] < p {
                F32_ONE_BITS
            } else {
                F32_ZERO_BITS
            }),
{
    if !size_matches(shape, units.len()) {
        return None;
    }
    let mut data: Vec<u32> = Vec::new();
    let mut i: usize = 0;
    while i < units.len()
        invariant
            0 <= i <= units@.len(),
            data@.len() == i,
            forall|k: int| 0 <= k < i ==> data@[k] == (if units@[k] < p {
                F32_ONE_BITS
            } else {
                F32_ZERO_BITS
            }),
        decreases units@.len() - i,
    {
        if units[i] < p {
            data.push(F32_ONE_BITS);
        } else {
            data.push(F32_ZERO_BITS);
        }
        i = i + 1;
    }
    Some(NdArray { shape: copy_shape(shape), data })
}

/// The fan-in and fan-out of a weight matrix shape, for the Glorot
/// initialization schemes: accepted exactly for shapes of rank 2 whose
/// fan-in is positive (a zero fan-in admits no finite scale).
pub fn weight_matrix_fans(shape: &Vec<usize>) -> (r: Option<(usize, usize)>)
    ensures
        r is Some <==> shape@.len() == 2 && shape@[0] >= 1,
        r matches Some(f) ==> f.0 == shape@[0] && f.1 == shape@[1],
{
    if shape.len() == 2 && shape[0] >= 1 {
        Some((shape[0], shape[1]))
    } else {
        None
    }
}

/// Relies on `rand::Rng::shuffle`, seeded from `rand::weak_rng`: a
/// Fisher-Yates shuffle permutes the slice in place, so the result holds
/// exactly the elements given, rearranged.
#[verifier::external_body]
fn shuffled(v: Vec<usize>) -> (r: Vec<usize>)
    ensures
        r@.len() == v@.len(),
        r@.to_multiset() == v@.to_multiset(),
{
    let mut v = v;
    let mut rng = rand::weak_rng();
    rand::Rng::shuffle(&mut rng, v.as_mut_slice());
    v
}

/// A uniformly random permutation of `0..size`, redrawn independently on
/// every call; empty for `size == 0`.
pub fn permutation(size: usize) -> (r: Vec<usize>)
    ensures
        r@.len() == size,
        r@.to_multiset() == Seq::new(size as nat, |i: int| i as usize).to_multiset(),
{
    let mut v: Vec<usize> = Vec::new();
    let mut i: usize = 0;
    while i < size
        invariant
            0 <= i <= size,
            v@ == Seq::new(i as nat, |k: int| k as usize),
        decreases size - i,
    {
        v.push(i);
        proof {
            assert(Seq::new((i + 1) as nat, |k: int| k as usize)
                =~= Seq::new(i as nat, |k: int| k as usize).push(i as usize));
        }
        i = i + 1;
    }
    shuffled(v)
}

/// Insert a size-1 dimension at `axis`, leaving the elements and every
/// other dimension unchanged; the element count is unchanged too.
pub fn expand_dims(x: NdArray, axis: usize) -> (r: NdArray)
    requires
        x.wf(),
        axis <= x.shape@.len(),
    ensures
        r.wf(),
        r.shape@ == x.shape@.insert(axis as int, 1usize),
        r.data@ == x.data@,
{
    let NdArray { mut shape, data } = x;
    shape.insert(axis, 1);
    proof {
        lemma_size_insert_one(x.shape@, axis as int);
    }
    NdArray { shape, data }
}

/// As `expand_dims`, from a borrowed array: the result is a fresh copy
/// with the size-1 dimension inserted.
pub fn expand_dims_view(x: &NdArray, axis: usize) -> (r: NdArray)
    requires
        x.wf(),
        axis <= x.shape@.len(),
    ensures
        r.wf(),
        r.shape@ == x.shape@.insert(axis as int, 1usize),
        r.data@ == x.data@,
{
    expand_dims(x.deep_copy(), axis)
}

/// Inserting a size-1 dimension leaves a shape's size unchanged.
proof fn lemma_size_insert_one(s: Seq<usize>, a: int)
    requires
        0 <= a <= s.len(),
    ensures
        size_of_shape(s.insert(a, 1usize)) == size_of_shape(s),
{
    let t = s.insert(a, 1usize);
    lemma_size_split3(t, a);
    assert(t.take(a) =~= s.take(a));
    assert(t.skip(a + 1) =~= s.skip(a));
    lemma_size_split(s, a);
    assert(size_of_shape(s.take(a)) * 1nat * size_of_shape(s.skip(a))
        == size_of_shape(s.take(a)) * size_of_shape(s.skip(a))) by (nonlinear_arith);
}

/// Reinterpret a rank-2 array as a matrix; the element buffer is kept as
/// it is.
pub fn into_mat(x: NdArray) -> (r: Mat)
    requires
        x.wf(),
        x.shape@.len() == 2,
    ensures
        r.wf(),
        r.rows == x.shape@[0],
        r.cols == x.shape@[1],
        r.data@ == x.data@,
{
    proof {
        assert(x.shape@.drop_last() =~= seq![x.shape@[0]]);
        assert(seq![x.shape@[0]].drop_last() =~= Seq::<usize>::empty());
        assert(size_of_shape(Seq::<usize>::empty()) == 1);
        assert(size_of_shape(seq![x.shape@[0]]) == 1 * (x.shape@[0] as nat));
        assert(x.shape@.last() == x.shape@[1]);
        assert(size_of_shape(x.shape@)
            == (1 * (x.shape@[0] as nat)) * (x.shape@[1] as nat));
        assert((1 * (x.shape@[0] as nat)) * (x.shape@[1] as nat)
            == (x.shape@[0] as nat) * (x.shape@[1] as nat)) by (nonlinear_arith);
    }
    let rows = x.shape[0];
    let cols = x.shape[1];
    Mat { rows, cols, data: x.data }
}

/// A multi-index into an array of the given shape: one coordinate per
/// dimension, each below its dimension's size.
pub open spec fn valid_index(shape: Seq<usize>, idx: Seq<usize>) -> bool {
    idx.len() == shape.len() && forall|k: int| 0 <= k < shape.len() ==> idx[k] < shape[k]
}

/// Row-major offset of a multi-index: the position of that element in the
/// contiguous buffer, the last axis varying fastest.
pub open spec fn offset_of(shape: Seq<usize>, idx: Seq<usize>) -> nat
    decreases shape.len(),
{
    if shape.len() == 0 {
        0
    } else {
        offset_of(shape.drop_last(), idx.drop_last()) * (shape.last() as nat) + (idx.last() as nat)
    }
}

/// The multi-index whose row-major offset is `o`.
pub open spec fn index_of(shape: Seq<usize>, o: nat) -> Seq<usize>
    decreases shape.len(),
{
    if shape.len() == 0 {
        Seq::empty()
    } else {
        index_of(shape.drop_last(), o / (shape.last() as nat)).push(
            (o % (shape.last() as nat)) as usize,
        )
    }
}

/// A sequence with the entries at `i` and `j` exchanged.
pub open spec fn seq_swap<A>(s: Seq<A>, i: int, j: int) -> Seq<A> {
    s.update(i, s[j]).update(j, s[i])
}

/// A sequence with the entry at `from` moved to position `to`, all other
/// entries keeping their relative order.
pub open spec fn axis_moved<A>(s: Seq<A>, to: int, from: int) -> Seq<A> {
    Seq::new(
        s.len(),
        |m: int|
            if m == to {
                s[from]
            } else if to < m && m <= from {
                s[m - 1]
            } else if from <= m && m < to {
                s[m + 1]
            } else {
                s[m]
            },
    )
}

/// Exchanging two dimensions leaves a shape's size unchanged.
proof fn lemma_size_swap(s: Seq<usize>, i: int, j: int)
    requires
        0 <= i < s.len(),
        0 <= j < s.len(),
        i <= j,
    ensures
        size_of_shape(seq_swap(s, i, j)) == size_of_shape(s),
{
    if i == j {
        assert(seq_swap(s, i, j) =~= s);
    } else {
        let t = seq_swap(s, i, j);
        lemma_size_split3(s, j);
        lemma_size_split3(s.take(j), i);
        assert(s.take(j).take(i) =~= s.take(i));
        assert(s.take(j).skip(i + 1) =~= s.subrange(i + 1, j));
        assert(s.take(j)[i] == s[i]);
        lemma_size_split3(t, j);
        lemma_size_split3(t.take(j), i);
        assert(t.take(j).take(i) =~= s.take(i));
        assert(t.take(j).skip(i + 1) =~= s.subrange(i + 1, j));
        assert(t.skip(j + 1) =~= s.skip(j + 1));
        assert(t.take(j)[i] == s[j]);
        assert(t[j] == s[i]);
        let a = size_of_shape(s.take(i));
        let m = size_of_shape(s.subrange(i + 1, j));
        let k = size_of_shape(s.skip(j + 1));
        let x = s[i] as nat;
        let y = s[j] as nat;
        assert(size_of_shape(s) == (a * x * m) * y * k);
        assert(size_of_shape(t) == (a * y * m) * x * k);
        assert((a * x * m) * y * k == (a * y * m) * x * k) by (nonlinear_arith);
    }
}

/// The row-major offset of a valid multi-index lies inside the buffer.
proof fn lemma_offset_in_range(shape: Seq<usize>, idx: Seq<usize>)
    requires
        valid_index(shape, idx),
    ensures
        offset_of(shape, idx) < size_of_shape(shape),
    decreases shape.len(),
{
    if shape.len() > 0 {
        assert(valid_index(shape.drop_last(), idx.drop_last()));
        lemma_offset_in_range(shape.drop_last(), idx.drop_last());
        let f = offset_of(shape.drop_last(), idx.drop_last());
        let sz = size_of_shape(shape.drop_last());
        let l = shape.last() as nat;
        assert(idx[shape.len() - 1] < shape[shape.len() - 1]);
        assert((idx.last() as nat) < l);
        assert(f * l + (idx.last() as nat) < sz * l) by (nonlinear_arith)
            requires
                f < sz,
                (idx.last() as nat) < l,
        ;
    }
}

/// Taking the offset of a valid multi-index and turning it back into a
/// multi-index gives the index back.
proof fn lemma_index_of_offset(shape: Seq<usize>, idx: Seq<usize>)
    requires
        valid_index(shape, idx),
    ensures
        index_of(shape, offset_of(shape, idx)) == idx,
    decreases shape.len(),
{
    if shape.len() == 0 {
        assert(index_of(shape, offset_of(shape, idx)) =~= idx);
    } else {
        assert(valid_index(shape.drop_last(), idx.drop_last()));
        lemma_index_of_offset(shape.drop_last(), idx.drop_last());
        let f = offset_of(shape.drop_last(), idx.drop_last());
        let l = shape.last() as nat;
        let o = offset_of(shape, idx);
        assert(idx[shape.len() - 1] < shape[shape.len() - 1]);
        assert((idx.last() as nat) < l);
        lemma_fundamental_div_mod_converse(o as int, l as int, f as int, idx.last() as int);
        assert(o / l == f);
        assert(o % l == idx.last() as nat);
        assert(index_of(shape, o) =~= idx);
    }
}

/// Dividing by one dimension keeps the quotient inside the remaining
/// dimensions' size.
proof fn lemma_div_below(o: nat, l: nat, b: nat)
    requires
        l >= 1,
        o < b * l,
    ensures
        o / l < b,
{
    lemma_fundamental_div_mod(o as int, l as int);
    let q = (o as int) / (l as int);
    let m = (o as int) % (l as int);
    if q >= b {
        assert(l * q >= l * b) by (nonlinear_arith)
            requires
                q >= b,
                l >= 1,
        ;
        assert(l * b == b * l) by (nonlinear_arith);
        assert(false);
    }
}

/// The coordinates of the multi-index at offset `o`, over the first `len`
/// dimensions of the shape.
fn index_digits(shape: &Vec<usize>, len: usize, o: usize) -> (r: Vec<usize>)
    requires
        len <= shape@.len(),
        o < size_of_shape(shape@.take(len as int)),
    ensures
        r@ == index_of(shape@.take(len as int), o as nat),
        valid_index(shape@.take(len as int), r@),
    decreases len,
{
    if len == 0 {
        proof {
            assert(index_of(shape@.take(0), o as nat) =~= Seq::<usize>::empty());
        }
        Vec::new()
    } else {
        let l = shape[len - 1];
        proof {
            if l == 0 {
                lemma_size_zero_dim(shape@.take(len as int), len - 1);
            }
            assert(shape@.take(len as int).drop_last() =~= shape@.take(len - 1));
            assert(shape@.take(len as int).last() == shape@[len - 1]);
            lemma_div_below(o as nat, l as nat, size_of_shape(shape@.take(len - 1)));
        }
        let q = o / l;
        let m = o % l;
        let mut r = index_digits(shape, len - 1, q);
        r.push(m);
        proof {
            assert(r@ =~= index_of(shape@.take(len as int), o as nat));
            assert(valid_index(shape@.take(len as int), r@));
        }
        r
    }
}

/// The row-major offset of a valid multi-index.
fn offset_exec(shape: &Vec<usize>, idx: &Vec<usize>) -> (r: usize)
    requires
        valid_index(shape@, idx@),
        size_of_shape(shape@) <= usize::MAX,
    ensures
        r == offset_of(shape@, idx@),
        r < size_of_shape(shape@),
{
    proof {
        assert(forall|k: int| 0 <= k < shape@.len() ==> shape@[k] >= 1);
    }
    let mut acc: usize = 0;
    let mut j: usize = 0;
    while j < shape.len()
        invariant
            0 <= j <= shape@.len(),
            valid_index(shape@, idx@),
            idx@.len() == shape@.len(),
            forall|k: int| 0 <= k < shape@.len() ==> shape@[k] >= 1,
            size_of_shape(shape@) <= usize::MAX,
            acc == offset_of(shape@.take(j as int), idx@.take(j as int)),
            acc < size_of_shape(shape@.take(j as int)),
        decreases shape@.len() - j,
    {
        proof {
            assert(shape@.take(j + 1).drop_last() =~= shape@.take(j as int));
            assert(idx@.take(j + 1).drop_last() =~= idx@.take(j as int));
            assert(shape@.take(j + 1).last() == shape@[j as int]);
            assert(idx@.take(j + 1).last() == idx@[j as int]);
            assert(valid_index(shape@.take(j + 1), idx@.take(j + 1)));
            lemma_offset_in_range(shape@.take(j + 1), idx@.take(j + 1));
            lemma_size_take_le(shape@, j + 1);
        }
        acc = acc * shape[j] + idx[j];
        j = j + 1;
    }
    proof {
        assert(shape@.take(shape@.len() as int) =~= shape@);
        assert(idx@.take(idx@.len() as int) =~= idx@);
    }
    acc
}

/// The buffer of the array with dimensions `i` and `j` exchanged: the
/// element at offset `o` of the result is the element of the original
/// array at the exchanged multi-index.
fn transposed_buffer(shape: &Vec<usize>, data: &Vec<u32>, i: usize, j: usize) -> (r: Vec<u32>)
    requires
        data@.len() == size_of_shape(shape@),
        i < shape@.len(),
        j < shape@.len(),
        i <= j,
    ensures
        r@.len() == data@.len(),
        forall|o: int| 0 <= o < r@.len() ==> r@[o] == data@[offset_of(
            shape@,
            seq_swap(index_of(seq_swap(shape@, i as int, j as int), o as nat), i as int, j as int),
        ) as int],
{
    let ghost s2 = seq_swap(shape@, i as int, j as int);
    let mut sshape = copy_shape(shape);
    let si = sshape[i];
    let sj = sshape[j];
    sshape.set(i, sj);
    sshape.set(j, si);
    proof {
        assert(sshape@ =~= s2);
        lemma_size_swap(shape@, i as int, j as int);
    }
    let n = data.len();
    let rank = shape.len();
    let mut out: Vec<u32> = Vec::new();
    let mut o: usize = 0;
    while o < n
        invariant
            0 <= o <= n,
            out@.len() == o,
            n == data@.len(),
            data@.len() == size_of_shape(shape@),
            sshape@ == s2,
            s2 == seq_swap(shape@, i as int, j as int),
            size_of_shape(s2) == size_of_shape(shape@),
            i < shape@.len(),
            j < shape@.len(),
            i <= j,
            rank == shape@.len(),
            sshape@.len() == rank,
            forall|t: int| 0 <= t < o ==> out@[t] == data@[offset_of(
                shape@,
                seq_swap(index_of(s2, t as nat), i as int, j as int),
            ) as int],
        decreases n - o,
    {
        proof {
            assert(sshape@.take(rank as int) =~= s2);
        }
        let idx = index_digits(&sshape, rank, o);
        let ghost idx0 = idx@;
        let mut idx = idx;
        let a = idx[i];
        let b = idx[j];
        idx.set(i, b);
        idx.set(j, a);
        proof {
            assert(idx@ =~= seq_swap(idx0, i as int, j as int));
            assert forall|k: int| 0 <= k < shape@.len() implies idx@[k] < shape@[k] by {
                if k == i as int {
                    assert(idx0[j as int] < s2[j as int]);
                } else if k == j as int {
                    assert(idx0[i as int] < s2[i as int]);
                } else {
                    assert(idx0[k] < s2[k]);
                }
            }
            assert(valid_index(shape@, idx@));
        }
        let src = offset_exec(shape, &idx);
        out.push(data[src]);
        o = o + 1;
    }
    out
}

/// Exchange two dimensions of an array, moving the elements so that the
/// element at multi-index `idx` of the result is the element of the
/// original at `idx` with coordinates `i` and `j` exchanged.
pub fn swap_axes(x: &mut NdArray, i: usize, j: usize)
    requires
        old(x).wf(),
        i < old(x).shape@.len(),
        j < old(x).shape@.len(),
    ensures
        final(x).wf(),
        final(x).shape@ == seq_swap(old(x).shape@, i as int, j as int),
        final(x).data@.len() == old(x).data@.len(),
        forall|idx: Seq<usize>|
            valid_index(final(x).shape@, idx) ==> final(x).data@[offset_of(
                final(x).shape@,
                idx,
            ) as int] == old(x).data@[offset_of(
                old(x).shape@,
                seq_swap(idx, i as int, j as int),
            ) as int],
{
    let (lo, hi) = if i <= j {
        (i, j)
    } else {
        (j, i)
    };
    proof {
        assert(seq_swap(old(x).shape@, lo as int, hi as int)
            =~= seq_swap(old(x).shape@, i as int, j as int));
    }
    let out = transposed_buffer(&x.shape, &x.data, lo, hi);
    let ghost s0 = old(x).shape@;
    let ghost d0 = old(x).data@;
    let ghost s2 = seq_swap(s0, lo as int, hi as int);
    let sl = x.shape[lo];
    let sh = x.shape[hi];
    let mut nshape = copy_shape(&x.shape);
    nshape.set(lo, sh);
    nshape.set(hi, sl);
    proof {
        assert(nshape@ =~= s2);
        lemma_size_swap(s0, lo as int, hi as int);
    }
    x.shape = nshape;
    x.data = out;
    proof {
        assert forall|idx: Seq<usize>| valid_index(s2, idx) implies x.data@[offset_of(
            s2,
            idx,
        ) as int] == d0[offset_of(s0, seq_swap(idx, i as int, j as int)) as int] by {
            lemma_offset_in_range(s2, idx);
            lemma_index_of_offset(s2, idx);
            let o = offset_of(s2, idx);
            assert(x.data@[o as int] == d0[offset_of(
                s0,
                seq_swap(index_of(s2, o), lo as int, hi as int),
            ) as int]);
            assert(seq_swap(idx, lo as int, hi as int) =~= seq_swap(idx, i as int, j as int));
        }
    }
}

/// Moving an entry one place to the left is an adjacent exchange: a move
/// to position `p` followed by the exchange of `p - 1` and `p` is the move
/// to position `p - 1`.
proof fn lemma_move_left_step<A>(s: Seq<A>, p: int, f: int)
    requires
        1 <= p <= f < s.len(),
    ensures
        seq_swap(axis_moved(s, p, f), p - 1, p) =~= axis_moved(s, p - 1, f),
{
}

/// Moving an entry one place to the right is an adjacent exchange: a move
/// to position `p` followed by the exchange of `p` and `p + 1` is the move
/// to position `p + 1`.
proof fn lemma_move_right_step<A>(s: Seq<A>, p: int, f: int)
    requires
        0 <= f <= p < s.len() - 1,
    ensures
        seq_swap(axis_moved(s, p, f), p, p + 1) =~= axis_moved(s, p + 1, f),
{
}

/// How multi-indices translate across one leftward step of a move: the
/// exchanged index, mapped back by the shorter move, is the original
/// index mapped back by the longer move.
proof fn lemma_move_left_index<A>(s: Seq<A>, p: int, f: int)
    requires
        1 <= p <= f < s.len(),
    ensures
        axis_moved(seq_swap(s, p - 1, p), f, p) =~= axis_moved(s, f, p - 1),
{
}

/// How multi-indices translate across one rightward step of a move.
proof fn lemma_move_right_index<A>(s: Seq<A>, p: int, f: int)
    requires
        0 <= f <= p < s.len() - 1,
    ensures
        axis_moved(seq_swap(s, p, p + 1), f, p) =~= axis_moved(s, f, p + 1),
{
}

/// Every buffer position is the offset of exactly one valid multi-index:
/// the index at an in-range offset is valid and maps back to that offset.
proof fn lemma_offset_of_index(shape: Seq<usize>, o: nat)
    requires
        o < size_of_shape(shape),
    ensures
        valid_index(shape, index_of(shape, o)),
        offset_of(shape, index_of(shape, o)) == o,
    decreases shape.len(),
{
    if shape.len() == 0 {
        assert(index_of(shape, o) =~= Seq::<usize>::empty());
    } else {
        let l = shape.last() as nat;
        if l == 0 {
            assert(size_of_shape(shape.drop_last()) * 0nat == 0) by (nonlinear_arith);
        }
        lemma_div_below(o, l, size_of_shape(shape.drop_last()));
        lemma_offset_of_index(shape.drop_last(), o / l);
        let front = index_of(shape.drop_last(), o / l);
        let idx = index_of(shape, o);
        assert(idx == front.push((o % l) as usize));
        assert(idx.drop_last() =~= front);
        assert(idx.last() == (o % l) as usize);
        lemma_fundamental_div_mod(o as int, l as int);
        assert(o % l < l);
        assert((idx.last() as nat) == o % l);
        assert(offset_of(shape, idx) == offset_of(shape.drop_last(), front) * l + (o % l));
        assert((o / l) * l == l * (o / l)) by (nonlinear_arith);
        assert(offset_of(shape, idx) == o);
        assert forall|k: int| 0 <= k < shape.len() implies idx[k] < shape[k] by {
            if k < shape.len() - 1 {
                assert(front[k] < shape.drop_last()[k]);
            }
        }
    }
}

/// Moving a dimension and then moving it back restores the original
/// order of the entries.
pub proof fn lemma_axis_move_inverse<A>(s: Seq<A>, to: int, from: int)
    requires
        0 <= to < s.len(),
        0 <= from < s.len(),
    ensures
        axis_moved(axis_moved(s, to, from), from, to) =~= s,
{
}

/// Moving a dimension only reorders a shape: the moved shape holds the
/// same multiset of dimension sizes, so no size is changed, dropped or
/// added.
pub proof fn lemma_axis_moved_same_sizes<A>(s: Seq<A>, to: int, from: int)
    requires
        0 <= to < s.len(),
        0 <= from < s.len(),
    ensures
        axis_moved(s, to, from).to_multiset() == s.to_multiset(),
{
    broadcast use vstd::seq_lib::lemma_multiset_commutative;

    if to <= from {
        let a = s.take(to);
        let b = s.subrange(to, from);
        let e = seq![s[from]];
        let d = s.skip(from + 1);
        assert(s =~= a + b + e + d);
        assert(axis_moved(s, to, from) =~= a + e + b + d);
        assert((a + b + e + d).to_multiset() =~= (a + e + b + d).to_multiset());
    } else {
        let a = s.take(from);
        let e = seq![s[from]];
        let b = s.subrange(from + 1, to + 1);
        let d = s.skip(to + 1);
        assert(s =~= a + e + b + d);
        assert(axis_moved(s, to, from) =~= a + b + e + d);
        assert((a + e + b + d).to_multiset() =~= (a + b + e + d).to_multiset());
    }
}

/// Rolling an axis is a permutation of axes only, undone by the inverse
/// move: if `b` relates to `a` as `roll_axis(a, to, from)` ensures, and
/// `c` relates to `b` as the inverse call `roll_axis(b, from, to)`
/// ensures, then `c` is `a` again, shape and elements alike.
pub proof fn lemma_roll_axis_round_trip(a: NdArray, b: NdArray, c: NdArray, to: int, from: int)
    requires
        a.wf(),
        0 <= to < a.shape@.len(),
        0 <= from < a.shape@.len(),
        b.shape@ == axis_moved(a.shape@, to, from),
        b.data@.len() == a.data@.len(),
        forall|idx: Seq<usize>|
            valid_index(b.shape@, idx) ==> b.data@[offset_of(b.shape@, idx) as int]
                == a.data@[offset_of(a.shape@, axis_moved(idx, from, to)) as int],
        c.shape@ == axis_moved(b.shape@, from, to),
        c.data@.len() == b.data@.len(),
        forall|idx: Seq<usize>|
            valid_index(c.shape@, idx) ==> c.data@[offset_of(c.shape@, idx) as int]
                == b.data@[offset_of(b.shape@, axis_moved(idx, to, from)) as int],
    ensures
        c.shape@ == a.shape@,
        c.data@ == a.data@,
{
    lemma_axis_move_inverse(a.shape@, to, from);
    assert(c.shape@ =~= a.shape@);
    assert forall|o: int| 0 <= o < c.data@.len() implies c.data@[o] == a.data@[o] by {
        lemma_offset_of_index(a.shape@, o as nat);
        let idx = index_of(a.shape@, o as nat);
        let w = axis_moved(idx, to, from);
        assert forall|k: int| 0 <= k < b.shape@.len() implies w[k] < b.shape@[k] by {
        }
        assert(valid_index(b.shape@, w));
        assert(c.data@[offset_of(c.shape@, idx) as int]
            == b.data@[offset_of(b.shape@, w) as int]);
        assert(b.data@[offset_of(b.shape@, w) as int]
            == a.data@[offset_of(a.shape@, axis_moved(w, from, to)) as int]);
        lemma_axis_move_inverse(idx, to, from);
        assert(axis_moved(w, from, to) =~= idx);
    }
    assert(c.data@ =~= a.data@);
}

/// Move the dimension at position `from` to position `to` by a sequence
/// of adjacent exchanges, keeping every other dimension's relative order
/// and moving the elements along with the dimensions.
pub fn roll_axis(x: &mut NdArray, to: usize, from: usize)
    requires
        old(x).wf(),
        to < old(x).shape@.len(),
        from < old(x).shape@.len(),
    ensures
        final(x).wf(),
        final(x).shape@ == axis_moved(old(x).shape@, to as int, from as int),
        final(x).data@.len() == old(x).data@.len(),
        forall|idx: Seq<usize>|
            valid_index(final(x).shape@, idx) ==> final(x).data@[offset_of(
                final(x).shape@,
                idx,
            ) as int] == old(x).data@[offset_of(
                old(x).shape@,
                axis_moved(idx, from as int, to as int),
            ) as int],
{
    let ghost s0 = old(x).shape@;
    let ghost d0 = old(x).data@;
    proof {
        assert(axis_moved(s0, from as int, from as int) =~= s0);
        assert forall|idx: Seq<usize>| valid_index(s0, idx) implies d0[offset_of(
            s0,
            idx,
        ) as int] == d0[offset_of(s0, axis_moved(idx, from as int, from as int)) as int] by {
            assert(axis_moved(idx, from as int, from as int) =~= idx);
        }
    }
    if from > to {
        let mut p: usize = from;
        while p > to
            invariant
                to <= p <= from < s0.len(),
                x.wf(),
                s0 == old(x).shape@,
                d0 == old(x).data@,
                x.shape@ == axis_moved(s0, p as int, from as int),
                x.data@.len() == d0.len(),
                forall|idx: Seq<usize>|
                    valid_index(x.shape@, idx) ==> x.data@[offset_of(x.shape@, idx) as int]
                        == d0[offset_of(s0, axis_moved(idx, from as int, p as int)) as int],
            decreases p,
        {
            let ghost scur = x.shape@;
            let ghost dcur = x.data@;
            swap_axes(x, p - 1, p);
            proof {
                lemma_move_left_step(s0, p as int, from as int);
                assert(x.shape@ =~= axis_moved(s0, p - 1, from as int));
                assert forall|idx: Seq<usize>| valid_index(x.shape@, idx) implies x.data@[offset_of(
                    x.shape@,
                    idx,
                ) as int] == d0[offset_of(
                    s0,
                    axis_moved(idx, from as int, p - 1),
                ) as int] by {
                    let widx = seq_swap(idx, p - 1, p as int);
                    assert(valid_index(scur, widx));
                    assert(dcur[offset_of(scur, widx) as int]
                        == d0[offset_of(s0, axis_moved(widx, from as int, p as int)) as int]);
                    lemma_move_left_index(idx, p as int, from as int);
                    assert(axis_moved(widx, from as int, p as int)
                        =~= axis_moved(idx, from as int, p - 1));
                }
            }
            p = p - 1;
        }
    } else if from < to {
        let mut p: usize = from;
        while p < to
            invariant
                from <= p <= to < s0.len(),
                x.wf(),
                s0 == old(x).shape@,
                d0 == old(x).data@,
                x.shape@ == axis_moved(s0, p as int, from as int),
                x.data@.len() == d0.len(),
                forall|idx: Seq<usize>|
                    valid_index(x.shape@, idx) ==> x.data@[offset_of(x.shape@, idx) as int]
                        == d0[offset_of(s0, axis_moved(idx, from as int, p as int)) as int],
            decreases to - p,
        {
            let ghost scur = x.shape@;
            let ghost dcur = x.data@;
            swap_axes(x, p, p + 1);
            proof {
                lemma_move_right_step(s0, p as int, from as int);
                assert(x.shape@ =~= axis_moved(s0, p + 1, from as int));
                assert forall|idx: Seq<usize>| valid_index(x.shape@, idx) implies x.data@[offset_of(
                    x.shape@,
                    idx,
                ) as int] == d0[offset_of(
                    s0,
                    axis_moved(idx, from as int, p + 1),
                ) as int] by {
                    let widx = seq_swap(idx, p as int, p + 1);
                    assert(valid_index(scur, widx));
                    assert(dcur[offset_of(scur, widx) as int]
                        == d0[offset_of(s0, axis_moved(widx, from as int, p as int)) as int]);
                    lemma_move_right_index(idx, p as int, from as int);
                    assert(axis_moved(widx, from as int, p as int)
                        =~= axis_moved(idx, from as int, p + 1));
                }
            }
            p = p + 1;
        }
    } else {
        proof {
            assert(axis_moved(s0, to as int, from as int) =~= s0);
            assert forall|idx: Seq<usize>| valid_index(x.shape@, idx) implies x.data@[offset_of(
                x.shape@,
                idx,
            ) as int] == d0[offset_of(s0, axis_moved(idx, from as int, to as int)) as int] by {
                assert(axis_moved(idx, from as int, to as int) =~= idx);
            }
        }
    }
}

} // verus!
