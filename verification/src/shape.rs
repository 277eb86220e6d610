//! An online shape descriptor: a single-pass accumulator that keeps the
//! count, exact sum and sum of squares (from which mean and population
//! variance follow), the extrema, and a monotonicity classification of a
//! stream of samples.
use vstd::prelude::*;

verus! {

/// The mathematical content of a descriptor: every statistic it has
/// accumulated, with unbounded integers.
pub ghost struct ShapeModel {
    /// Population size: ingested samples plus registered nulls.
    pub size: nat,
    /// Number of actual (non-null) samples ingested.
    pub vals: nat,
    /// Exact sum of all samples; the mean is `sum / vals`.
    pub sum: int,
    /// Exact sum of squared samples; the population variance is
    /// `sum_sq / vals - (sum / vals)^2`.
    pub sum_sq: int,
    /// Least sample seen; meaningful only when `vals > 0`.
    pub min: int,
    /// Greatest sample seen; meaningful only when `vals > 0`.
    pub max: int,
    /// Most recently ingested sample; meaningful only when `vals > 0`.
    pub last: int,
    /// True while every consecutive pair of samples was non-decreasing.
    pub asc: bool,
    /// True while every consecutive pair of samples was non-increasing.
    pub desc: bool,
}

/// The descriptor of an empty stream.
pub open spec fn empty_model() -> ShapeModel {
    ShapeModel {
        size: 0,
        vals: 0,
        sum: 0,
        sum_sq: 0,
        min: 0,
        max: 0,
        last: 0,
        asc: true,
        desc: true,
    }
}

/// How one ingested sample advances the descriptor.
pub open spec fn model_add(m: ShapeModel, x: int) -> ShapeModel {
    ShapeModel {
        size: m.size + 1,
        vals: m.vals + 1,
        sum: m.sum + x,
        sum_sq: m.sum_sq + x * x,
        min: if m.vals == 0 || x < m.min { x } else { m.min },
        max: if m.vals == 0 || x > m.max { x } else { m.max },
        last: x,
        asc: m.asc && (m.vals == 0 || m.last <= x),
        desc: m.desc && (m.vals == 0 || m.last >= x),
    }
}

/// How a registered null advances the descriptor: the population grows,
/// no statistic changes.
pub open spec fn model_add_null(m: ShapeModel) -> ShapeModel {
    ShapeModel { size: m.size + 1, ..m }
}

/// The descriptor of a whole sequence, ingested left to right.
pub open spec fn shape_model(s: Seq<i32>) -> ShapeModel
    decreases s.len(),
{
    if s.len() == 0 {
        empty_model()
    } else {
        model_add(shape_model(s.drop_last()), s.last() as int)
    }
}

/// Every consecutive pair is non-decreasing.
pub open spec fn non_decreasing(s: Seq<i32>) -> bool {
    forall|i: int| 0 <= i && i + 1 < s.len() ==> #[trigger] s[i] <= s[i + 1]
}

/// Every consecutive pair is non-increasing.
pub open spec fn non_increasing(s: Seq<i32>) -> bool {
    forall|i: int| 0 <= i && i + 1 < s.len() ==> #[trigger] s[i] >= s[i + 1]
}

/// Exact sum of a sequence of samples.
pub open spec fn seq_sum(s: Seq<i32>) -> int
    decreases s.len(),
{
    if s.len() == 0 {
        0
    } else {
        seq_sum(s.drop_last()) + s.last()
    }
}

/// Exact sum of the squares of a sequence of samples.
pub open spec fn seq_sum_sq(s: Seq<i32>) -> int
    decreases s.len(),
{
    if s.len() == 0 {
        0
    } else {
        seq_sum_sq(s.drop_last()) + s.last() * s.last()
    }
}

/// An online statistics accumulator over `i32` samples.  All sums are
/// exact, so the arithmetic mean and the population variance of the
/// stream are recoverable from `sum`, `sum_sq` and `values` without any
/// rounding drift.
#[derive(Clone, Copy, Debug, PartialEq, Eq, Structural)]
#[verifier::ext_equal]
pub struct Shape {
    size: usize,
    vals: usize,
    sum: i128,
    sum_sq: i128,
    min: i32,
    max: i32,
    last_v: i32,
    a_sorted: bool,
    d_sorted: bool,
}

impl View for Shape {
    type V = ShapeModel;

    closed spec fn view(&self) -> ShapeModel {
        ShapeModel {
            size: self.size as nat,
            vals: self.vals as nat,
            sum: self.sum as int,
            sum_sq: self.sum_sq as int,
            min: self.min as int,
            max: self.max as int,
            last: self.last_v as int,
            asc: self.a_sorted,
            desc: self.d_sorted,
        }
    }
}

impl Shape {
    /// The accumulators stay within their machine types: with samples in
    /// `i32`, the sum and the sum of squares are bounded by the number of
    /// samples times a per-sample bound, which always fits an `i128`.
    pub closed spec fn wf(self) -> bool {
        &&& self.vals <= self.size
        &&& -((self.vals as int) * 0x8000_0000) <= self.sum as int
        &&& self.sum as int <= (self.vals as int) * 0x8000_0000
        &&& 0 <= self.sum_sq as int
        &&& self.sum_sq as int <= (self.vals as int) * 0x4000_0000_0000_0000
    }

    /// Constructs the descriptor of an empty stream.
    pub fn new() -> (r: Shape)
        ensures
            r@ == empty_model(),
            r.wf(),
    {
        Shape {
            size: 0,
            vals: 0,
            sum: 0,
            sum_sq: 0,
            min: 0,
            max: 0,
            last_v: 0,
            a_sorted: true,
            d_sorted: true,
        }
    }

    /// Ingests one sample, updating every statistic in constant time.
    pub fn add(&mut self, sample: i32)
        requires
            old(self).wf(),
            old(self)@.size < usize::MAX,
        ensures
            final(self)@ == model_add(old(self)@, sample as int),
            final(self).wf(),
    {
        let x: i128 = sample as i128;
        proof {
            assert(x * x <= 0x4000_0000_0000_0000) by (nonlinear_arith)
                requires
                    -0x8000_0000 <= x <= 0x7fff_ffff,
            ;
            assert(0 <= x * x) by (nonlinear_arith);
        }
        if self.vals == 0 {
            self.min = sample;
            self.max = sample;
        } else {
            if sample < self.min {
                self.min = sample;
            }
            if sample > self.max {
                self.max = sample;
            }
            if sample < self.last_v {
                self.a_sorted = false;
            }
            if sample > self.last_v {
                self.d_sorted = false;
            }
        }
        self.sum = self.sum + x;
        self.sum_sq = self.sum_sq + x * x;
        self.last_v = sample;
        self.size = self.size + 1;
        self.vals = self.vals + 1;
    }

    /// Builds the descriptor of a whole slice of samples, ingesting them
    /// in order.
    pub fn from_slice(samples: &Vec<i32>) -> (r: Shape)
        ensures
            r@ == shape_model(samples@),
            r.wf(),
    {
        let mut r = Shape::new();
        let mut idx: usize = 0;
        while idx < samples.len()
            invariant
                idx <= samples@.len(),
                r.wf(),
                r@ == shape_model(samples@.subrange(0, idx as int)),
                r@.size == idx,
            decreases samples@.len() - idx,
        {
            let ghost prefix = samples@.subrange(0, idx as int);
            r.add(samples[idx]);
            proof {
                assert(samples@.subrange(0, idx + 1) =~= prefix.push(samples@[idx as int]));
                assert(samples@.subrange(0, idx + 1).drop_last() =~= prefix);
            }
            idx = idx + 1;
        }
        proof {
            assert(samples@.subrange(0, samples@.len() as int) =~= samples@);
        }
        r
    }

    /// Number of data points in the population, nulls included.
    pub fn size(&self) -> (r: usize)
        ensures
            r == self@.size,
    {
        self.size
    }

    /// Number of data points, as `size`.
    pub fn len(&self) -> (r: usize)
        ensures
            r == self@.size,
    {
        self.size
    }

    /// Number of actual samples ingested, nulls excluded: the divisor for
    /// the mean and the variance.
    pub fn values(&self) -> (r: usize)
        ensures
            r == self@.vals,
    {
        self.vals
    }

    /// Exact sum of the ingested samples.
    pub fn sum(&self) -> (r: i128)
        ensures
            r == self@.sum,
    {
        self.sum
    }

    /// Exact sum of the squares of the ingested samples.
    pub fn sum_sq(&self) -> (r: i128)
        ensures
            r == self@.sum_sq,
    {
        self.sum_sq
    }

    /// Least sample seen, absent while no sample was ingested.
    pub fn min(&self) -> (r: Option<i32>)
        ensures
            (r is Some) <==> self@.vals > 0,
            r matches Some(m) ==> m == self@.min,
    {
        if self.vals == 0 {
            None
        } else {
            Some(self.min)
        }
    }

    /// Greatest sample seen, absent while no sample was ingested.
    pub fn max(&self) -> (r: Option<i32>)
        ensures
            (r is Some) <==> self@.vals > 0,
            r matches Some(m) ==> m == self@.max,
    {
        if self.vals == 0 {
            None
        } else {
            Some(self.max)
        }
    }

    /// True while the samples arrived in non-decreasing or non-increasing
    /// order.
    pub fn sorted(&self) -> (r: bool)
        ensures
            r == (self@.asc || self@.desc),
    {
        self.a_sorted || self.d_sorted
    }

    /// True while the samples arrived in non-decreasing order.
    pub fn ascending(&self) -> (r: bool)
        ensures
            r == self@.asc,
    {
        self.a_sorted
    }

    /// True while the samples arrived in non-increasing order.
    pub fn descending(&self) -> (r: bool)
        ensures
            r == self@.desc,
    {
        self.d_sorted
    }

    /// Registers a missing observation: the population size grows by one;
    /// no other statistic is touched.
    pub fn add_null(&mut self)
        requires
            old(self).wf(),
            old(self)@.size < usize::MAX,
        ensures
            final(self)@ == model_add_null(old(self)@),
            final(self).wf(),
    {
        self.size = self.size + 1;
    }
}

/// What the descriptor of a sequence says, stated over the sequence
/// itself: the counts are its length, the sums are the exact sum and sum
/// of squares (hence its mean and population variance), the extrema bound
/// every element and are attained, the last field is its last element,
/// and the two flags classify its monotonicity.
proof fn lemma_model_counts(s: Seq<i32>)
    ensures
        shape_model(s).size == s.len(),
        shape_model(s).vals == s.len(),
        shape_model(s).sum == seq_sum(s),
        shape_model(s).sum_sq == seq_sum_sq(s),
        s.len() > 0 ==> shape_model(s).last == s.last() as int,
    decreases s.len(),
{
    if s.len() > 0 {
        lemma_model_counts(s.drop_last());
    }
}

proof fn lemma_model_monotone(s: Seq<i32>)
    ensures
        shape_model(s).asc <==> non_decreasing(s),
        shape_model(s).desc <==> non_increasing(s),
    decreases s.len(),
{
    if s.len() == 0 {
    } else {
        let d = s.drop_last();
        let m = shape_model(s);
        lemma_model_counts(d);
        lemma_model_monotone(d);
        assert(forall|i: int| 0 <= i < d.len() ==> #[trigger] d[i] == s[i]);
        if m.asc {
            assert forall|i: int| 0 <= i && i + 1 < s.len() implies #[trigger] s[i] <= s[i
                + 1] by {
                if i + 1 < d.len() {
                    assert(d[i] <= d[i + 1]);
                } else {
                    assert(d.len() > 0 && shape_model(d).last == d.last() as int);
                }
            }
        }
        if non_decreasing(s) {
            assert forall|i: int| 0 <= i && i + 1 < d.len() implies #[trigger] d[i] <= d[i
                + 1] by {
                assert(s[i] <= s[i + 1]);
            }
            assert(non_decreasing(d));
            if d.len() > 0 {
                assert(s[s.len() - 2] <= s[s.len() - 1]);
            }
        }
        if m.desc {
            assert forall|i: int| 0 <= i && i + 1 < s.len() implies #[trigger] s[i] >= s[i
                + 1] by {
                if i + 1 < d.len() {
                    assert(d[i] >= d[i + 1]);
                } else {
                    assert(d.len() > 0 && shape_model(d).last == d.last() as int);
                }
            }
        }
        if non_increasing(s) {
            assert forall|i: int| 0 <= i && i + 1 < d.len() implies #[trigger] d[i] >= d[i
                + 1] by {
                assert(s[i] >= s[i + 1]);
            }
            assert(non_increasing(d));
            if d.len() > 0 {
                assert(s[s.len() - 2] >= s[s.len() - 1]);
            }
        }
    }
}

proof fn lemma_model_extrema(s: Seq<i32>)
    ensures
        forall|i: int|
            0 <= i < s.len() ==> shape_model(s).min <= #[trigger] s[i] <= shape_model(s).max,
        s.len() > 0 ==> exists|i: int| 0 <= i < s.len() && s[i] == shape_model(s).min,
        s.len() > 0 ==> exists|i: int| 0 <= i < s.len() && s[i] == shape_model(s).max,
    decreases s.len(),
{
    if s.len() == 0 {
    } else {
        let d = s.drop_last();
        let m = shape_model(s);
        lemma_model_counts(d);
        lemma_model_extrema(d);
        assert(forall|i: int| 0 <= i < d.len() ==> #[trigger] d[i] == s[i]);
        assert forall|i: int| 0 <= i < s.len() implies shape_model(s).min <= #[trigger] s[i]
            <= shape_model(s).max by {
            if i < d.len() {
                assert(d[i] == s[i]);
                assert(shape_model(d).min <= d[i] <= shape_model(d).max);
            }
        }
        if d.len() > 0 {
            let wit_min = choose|i: int| 0 <= i < d.len() && d[i] == shape_model(d).min;
            let wit_max = choose|i: int| 0 <= i < d.len() && d[i] == shape_model(d).max;
            if (s.last() as int) < shape_model(d).min {
                assert(s[s.len() - 1] == m.min);
            } else {
                assert(s[wit_min] == m.min);
            }
            if (s.last() as int) > shape_model(d).max {
                assert(s[s.len() - 1] == m.max);
            } else {
                assert(s[wit_max] == m.max);
            }
        } else {
            assert(s[0] == m.min);
            assert(s[0] == m.max);
        }
    }
}

/// What the descriptor of a sequence says, stated over the sequence
/// itself: the counts are its length, the sums are the exact sum and sum
/// of squares (hence its mean and population variance), the extrema bound
/// every element and are attained, the last field is its last element,
/// and the two flags classify its monotonicity.
pub proof fn lemma_shape_model(s: Seq<i32>)
    ensures
        shape_model(s).size == s.len(),
        shape_model(s).vals == s.len(),
        shape_model(s).sum == seq_sum(s),
        shape_model(s).sum_sq == seq_sum_sq(s),
        shape_model(s).asc <==> non_decreasing(s),
        shape_model(s).desc <==> non_increasing(s),
        s.len() > 0 ==> shape_model(s).last == s.last() as int,
        forall|i: int|
            0 <= i < s.len() ==> shape_model(s).min <= #[trigger] s[i] <= shape_model(s).max,
        s.len() > 0 ==> exists|i: int| 0 <= i < s.len() && s[i] == shape_model(s).min,
        s.len() > 0 ==> exists|i: int| 0 <= i < s.len() && s[i] == shape_model(s).max,
{
    lemma_model_counts(s);
    lemma_model_monotone(s);
    lemma_model_extrema(s);
}

/// A sequence ordered under an order is classified accordingly by its
/// shape descriptor: sorted ascending gives `asc` (hence `sorted`),
/// sorted descending gives `desc`.
pub proof fn lemma_sorted_shape(s: Seq<i32>, order: crate::SortOrder)
    requires
        crate::ordered(s, order),
    ensures
        order == crate::SortOrder::Ascending ==> shape_model(s).asc,
        order == crate::SortOrder::Descending ==> shape_model(s).desc,
{
    lemma_shape_model(s);
    if order == crate::SortOrder::Ascending {
        assert forall|i: int| 0 <= i && i + 1 < s.len() implies #[trigger] s[i] <= s[i + 1] by {
            assert(crate::in_order(order, s[i], s[i + 1]));
        }
        assert(non_decreasing(s));
    } else {
        assert forall|i: int| 0 <= i && i + 1 < s.len() implies #[trigger] s[i] >= s[i + 1] by {
            assert(crate::in_order(order, s[i], s[i + 1]));
        }
        assert(non_increasing(s));
    }
}

/// Two descriptors are equal exactly when their statistics agree.  So
/// descriptors of identical sequences are equal, and descriptors of
/// sequences that agree in count, sum (hence mean), minimum and maximum
/// but differ in sum of squares (hence in variance) are unequal.
pub proof fn lemma_structural_equality(a: Shape, b: Shape, s: Seq<i32>, t: Seq<i32>)
    requires
        a@ == shape_model(s),
        b@ == shape_model(t),
    ensures
        s == t ==> a == b,
        shape_model(s).sum_sq != shape_model(t).sum_sq ==> a != b,
{
    if a@ == b@ {
        assert(a =~= b);
    }
}

} // verus!
