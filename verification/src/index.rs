//! Mixed-radix flattening of a bounded multi-dimensional usage vector.
//!
//! A coordinate vector `v` with `0 <= v[d] <= bound[d]` in every dimension is
//! mapped to a dense index by treating dimension `d` as a digit of radix
//! `bound[d] + 1`, dimension 0 being the most significant. `Costs` wraps the
//! bound vector and offers encoding (`to_idx`), decoding (`to_cost`) and the
//! combined feasibility-check-plus-predecessor step (`validate_sub`).

use vstd::arithmetic::div_mod::{
    lemma_div_pos_is_pos, lemma_fundamental_div_mod, lemma_fundamental_div_mod_converse,
    lemma_mod_bound, lemma_multiply_divide_lt,
};
use vstd::prelude::*;

verus! {

/// The integer view of a sequence of machine words.
pub open spec fn iv(s: Seq<usize>) -> Seq<int> {
    s.map_values(|x: usize| x as int)
}

/// Every entry of `s` is non-negative.
pub open spec fn nonneg(s: Seq<int>) -> bool {
    forall|d: int| 0 <= d < s.len() ==> #[trigger] s[d] >= 0
}

/// Mixed-radix composition of the digit vector `v` under `bounds`: the last
/// dimension is the least significant digit, of radix `bounds.last() + 1`.
pub open spec fn encode_seq(bounds: Seq<int>, v: Seq<int>) -> int
    decreases bounds.len(),
{
    if bounds.len() == 0 {
        0
    } else {
        encode_seq(bounds.drop_last(), v.drop_last()) * (bounds.last() + 1) + v.last()
    }
}

/// The number of distinct coordinate vectors lying within `bounds`.
pub open spec fn space_size(bounds: Seq<int>) -> int
    decreases bounds.len(),
{
    if bounds.len() == 0 {
        1
    } else {
        space_size(bounds.drop_last()) * (bounds.last() + 1)
    }
}

/// Digit extraction, least significant (= last) dimension first.
pub open spec fn decode_seq(bounds: Seq<int>, i: int) -> Seq<int>
    decreases bounds.len(),
{
    if bounds.len() == 0 {
        Seq::empty()
    } else {
        decode_seq(bounds.drop_last(), i / (bounds.last() + 1)).push(i % (bounds.last() + 1))
    }
}

/// `v` is a valid coordinate vector under `bounds`.
pub open spec fn in_range(bounds: Seq<int>, v: Seq<int>) -> bool {
    v.len() == bounds.len() && forall|d: int|
        0 <= d < v.len() ==> 0 <= #[trigger] v[d] <= bounds[d]
}

/// Componentwise comparison.
pub open spec fn cw_le(a: Seq<int>, b: Seq<int>) -> bool {
    a.len() == b.len() && forall|d: int| 0 <= d < a.len() ==> #[trigger] a[d] <= b[d]
}

/// Componentwise difference.
pub open spec fn cw_sub(a: Seq<int>, b: Seq<int>) -> Seq<int> {
    Seq::new(a.len(), |d: int| a[d] - b[d])
}

/// The cost vector of `k` copies of an item whose unit cost is `cost`.
pub open spec fn scaled(cost: Seq<int>, k: int) -> Seq<int> {
    Seq::new(cost.len(), |d: int| k * cost[d])
}

/// Machine words view as non-negative integers.
pub proof fn lemma_iv_nonneg(s: Seq<usize>)
    ensures
        iv(s).len() == s.len(),
        nonneg(iv(s)),
{
    assert forall|d: int| 0 <= d < iv(s).len() implies #[trigger] iv(s)[d] >= 0 by {
        assert(iv(s)[d] == s[d] as int);
    }
}

/// The index space always holds at least the all-zero vector.
pub proof fn lemma_space_size_pos(bounds: Seq<int>)
    requires
        nonneg(bounds),
    ensures
        space_size(bounds) >= 1,
    decreases bounds.len(),
{
    if bounds.len() > 0 {
        lemma_space_size_pos(bounds.drop_last());
        assert(space_size(bounds.drop_last()) * (bounds.last() + 1) >= 1) by (nonlinear_arith)
            requires
                space_size(bounds.drop_last()) >= 1,
                bounds.last() >= 0,
        ;
    }
}

/// A vector of non-negative digits never encodes below zero, whether or not
/// it lies within the bounds.
pub proof fn lemma_encode_nonneg(bounds: Seq<int>, v: Seq<int>)
    requires
        nonneg(bounds),
        nonneg(v),
        v.len() == bounds.len(),
    ensures
        encode_seq(bounds, v) >= 0,
    decreases bounds.len(),
{
    if bounds.len() > 0 {
        lemma_encode_nonneg(bounds.drop_last(), v.drop_last());
        assert(encode_seq(bounds.drop_last(), v.drop_last()) * (bounds.last() + 1) + v.last()
            >= 0) by (nonlinear_arith)
            requires
                encode_seq(bounds.drop_last(), v.drop_last()) >= 0,
                bounds.last() >= 0,
                v.last() >= 0,
        ;
    }
}

/// An in-range vector encodes into `[0, space_size)`.
pub proof fn lemma_encode_bounds(bounds: Seq<int>, v: Seq<int>)
    requires
        nonneg(bounds),
        in_range(bounds, v),
    ensures
        0 <= encode_seq(bounds, v) < space_size(bounds),
    decreases bounds.len(),
{
    if bounds.len() > 0 {
        lemma_encode_bounds(bounds.drop_last(), v.drop_last());
        assert(0 <= encode_seq(bounds.drop_last(), v.drop_last()) * (bounds.last() + 1)
            + v.last() < space_size(bounds.drop_last()) * (bounds.last() + 1))
            by (nonlinear_arith)
            requires
                0 <= encode_seq(bounds.drop_last(), v.drop_last()) <= space_size(
                    bounds.drop_last(),
                ) - 1,
                0 <= v.last() <= bounds.last(),
        ;
    }
}

/// Encoding the bound vector itself yields the greatest index.
pub proof fn lemma_encode_self(bounds: Seq<int>)
    requires
        nonneg(bounds),
    ensures
        encode_seq(bounds, bounds) == space_size(bounds) - 1,
    decreases bounds.len(),
{
    if bounds.len() > 0 {
        lemma_encode_self(bounds.drop_last());
        assert((space_size(bounds.drop_last()) - 1) * (bounds.last() + 1) + bounds.last()
            == space_size(bounds.drop_last()) * (bounds.last() + 1) - 1) by (nonlinear_arith);
    }
}

/// Decoding a dense index yields an in-range vector that encodes back to the
/// same index: `encode(decode(i)) == i`.
pub proof fn lemma_encode_decode(bounds: Seq<int>, i: int)
    requires
        nonneg(bounds),
        0 <= i < space_size(bounds),
    ensures
        in_range(bounds, decode_seq(bounds, i)),
        encode_seq(bounds, decode_seq(bounds, i)) == i,
    decreases bounds.len(),
{
    if bounds.len() > 0 {
        let r = bounds.last() + 1;
        let q = i / r;
        let m = i % r;
        lemma_fundamental_div_mod(i, r);
        lemma_mod_bound(i, r);
        lemma_div_pos_is_pos(i, r);
        assert(space_size(bounds.drop_last()) * r == r * space_size(bounds.drop_last()))
            by (nonlinear_arith);
        assert(i < r * space_size(bounds.drop_last()));
        lemma_multiply_divide_lt(i, r, space_size(bounds.drop_last()));
        assert(q * r == r * q) by (nonlinear_arith);
        lemma_encode_decode(bounds.drop_last(), q);
        let dv = decode_seq(bounds.drop_last(), q).push(m);
        assert(dv.drop_last() =~= decode_seq(bounds.drop_last(), q));
        assert(in_range(bounds, dv));
        assert(encode_seq(bounds, dv) == q * r + m);
    }
}

/// Encoding an in-range vector and decoding the result gives the vector back:
/// `decode(encode(v)) == v`.
pub proof fn lemma_decode_encode(bounds: Seq<int>, v: Seq<int>)
    requires
        nonneg(bounds),
        in_range(bounds, v),
    ensures
        decode_seq(bounds, encode_seq(bounds, v)) == v,
    decreases bounds.len(),
{
    if bounds.len() == 0 {
        assert(decode_seq(bounds, encode_seq(bounds, v)) =~= v);
    } else {
        let r = bounds.last() + 1;
        let e = encode_seq(bounds.drop_last(), v.drop_last());
        lemma_encode_bounds(bounds.drop_last(), v.drop_last());
        lemma_fundamental_div_mod_converse(e * r + v.last(), r, e, v.last());
        lemma_decode_encode(bounds.drop_last(), v.drop_last());
        assert(decode_seq(bounds, encode_seq(bounds, v)) =~= v);
    }
}

/// Encoding is linear: the componentwise difference of two equally long digit
/// vectors encodes to the difference of their encodings.
pub proof fn lemma_encode_sub(bounds: Seq<int>, v: Seq<int>, w: Seq<int>)
    requires
        v.len() == bounds.len(),
        w.len() == bounds.len(),
    ensures
        encode_seq(bounds, cw_sub(v, w)) == encode_seq(bounds, v) - encode_seq(bounds, w),
    decreases bounds.len(),
{
    if bounds.len() > 0 {
        assert(cw_sub(v, w).drop_last() =~= cw_sub(v.drop_last(), w.drop_last()));
        lemma_encode_sub(bounds.drop_last(), v.drop_last(), w.drop_last());
        let ev = encode_seq(bounds.drop_last(), v.drop_last());
        let ew = encode_seq(bounds.drop_last(), w.drop_last());
        assert((ev - ew) * (bounds.last() + 1) == ev * (bounds.last() + 1) - ew * (bounds.last()
            + 1)) by (nonlinear_arith);
    }
}

/// The index space of a prefix of the bound vector is no larger than the
/// whole index space (and never empty).
pub proof fn lemma_space_prefix(bounds: Seq<int>, j: int)
    requires
        nonneg(bounds),
        0 <= j <= bounds.len(),
    ensures
        1 <= space_size(bounds.take(j)) <= space_size(bounds),
    decreases bounds.len() - j,
{
    assert(nonneg(bounds.take(j)));
    lemma_space_size_pos(bounds.take(j));
    if j < bounds.len() {
        lemma_space_prefix(bounds, j + 1);
        assert(bounds.take(j + 1).drop_last() =~= bounds.take(j));
        assert(bounds.take(j + 1).last() == bounds[j]);
        assert(space_size(bounds.take(j)) <= space_size(bounds.take(j)) * (bounds[j] + 1))
            by (nonlinear_arith)
            requires
                space_size(bounds.take(j)) >= 1,
                bounds[j] >= 0,
        ;
    } else {
        assert(bounds.take(j) =~= bounds);
    }
}

/// Each dimension's radix is at most the whole index-space size.
pub proof fn lemma_radix_le_space(bounds: Seq<int>, d: int)
    requires
        nonneg(bounds),
        0 <= d < bounds.len(),
    ensures
        bounds[d] + 1 <= space_size(bounds),
    decreases bounds.len(),
{
    if d == bounds.len() - 1 {
        lemma_space_size_pos(bounds.drop_last());
        assert(bounds.last() + 1 <= space_size(bounds.drop_last()) * (bounds.last() + 1))
            by (nonlinear_arith)
            requires
                space_size(bounds.drop_last()) >= 1,
                bounds.last() >= 0,
        ;
    } else {
        lemma_radix_le_space(bounds.drop_last(), d);
        assert(space_size(bounds.drop_last()) <= space_size(bounds.drop_last()) * (bounds.last()
            + 1)) by (nonlinear_arith)
            requires
                space_size(bounds.drop_last()) >= 1,
                bounds.last() >= 0,
        ;
        lemma_space_size_pos(bounds.drop_last());
    }
}

/// The bound vector of one solve: wraps the per-dimension capacities and
/// flattens bounded usage vectors to dense table indices.
pub struct Costs(pub Vec<usize>);

impl Costs {
    /// The integer view of the bound vector.
    pub open spec fn bv(&self) -> Seq<int> {
        iv(self.0@)
    }

    /// The size of the index space, as a mathematical integer.
    pub open spec fn sz(&self) -> int {
        space_size(self.bv())
    }

    /// At least one dimension, and an index space a dense table can hold.
    pub open spec fn wf(&self) -> bool {
        self.0@.len() >= 1 && self.sz() <= usize::MAX as int
    }

    /// The greatest index: the encoding of the bound vector itself.
    pub fn end(&self) -> (r: usize)
        requires
            self.wf(),
        ensures
            r as int == self.sz() - 1,
    {
        proof {
            lemma_encode_self(self.bv());
        }
        self.to_idx(self.0.as_slice())
    }

    /// The full index space, lowest index first.
    pub fn iter(&self) -> (r: core::ops::RangeInclusive<usize>)
        requires
            self.wf(),
        ensures
            r@.start == 0usize,
            r@.end as int == self.sz() - 1,
            !r@.exhausted,
    {
        let e = self.end();
        core::ops::RangeInclusive::new(0, e)
    }

    /// Encodes an in-range coordinate vector; the caller guarantees validity.
    pub fn to_idx(&self, vec: &[usize]) -> (r: usize)
        requires
            self.wf(),
            in_range(self.bv(), iv(vec@)),
        ensures
            r as int == encode_seq(self.bv(), iv(vec@)),
            (r as int) < self.sz(),
    {
        let n = self.0.len();
        let mut ans: usize = 0;
        let mut d: usize = 0;
        proof {
            assert(self.bv().take(0) =~= Seq::<int>::empty());
            assert(iv(vec@).take(0) =~= Seq::<int>::empty());
        }
        while d < n
            invariant
                self.wf(),
                n == self.0@.len(),
                vec@.len() == n,
                in_range(self.bv(), iv(vec@)),
                0 <= d <= n,
                ans as int == encode_seq(self.bv().take(d as int), iv(vec@).take(d as int)),
                (ans as int) < space_size(self.bv().take(d as int)),
            decreases n - d,
        {
            proof {
                assert(self.bv().take(d + 1).drop_last() =~= self.bv().take(d as int));
                assert(iv(vec@).take(d + 1).drop_last() =~= iv(vec@).take(d as int));
                assert(in_range(self.bv().take(d + 1), iv(vec@).take(d + 1)));
                lemma_encode_bounds(self.bv().take(d + 1), iv(vec@).take(d + 1));
                lemma_space_prefix(self.bv(), d + 1);
                lemma_radix_le_space(self.bv(), d as int);
            }
            ans = ans * (self.0[d] + 1) + vec[d];
            d += 1;
        }
        proof {
            assert(self.bv().take(n as int) =~= self.bv());
            assert(iv(vec@).take(n as int) =~= iv(vec@));
            lemma_encode_bounds(self.bv(), iv(vec@));
        }
        ans
    }

    /// Decodes a dense index back into the coordinate vector it encodes.
    pub fn to_cost(&self, c: usize) -> (r: Vec<usize>)
        requires
            self.wf(),
            (c as int) < self.sz(),
        ensures
            iv(r@) == decode_seq(self.bv(), c as int),
            in_range(self.bv(), iv(r@)),
    {
        let n = self.0.len();
        let mut costs: Vec<usize> = Vec::new();
        let mut rem: usize = c;
        let mut j: usize = 0;
        proof {
            assert(self.bv().take(n as int) =~= self.bv());
            assert(decode_seq(self.bv(), c as int) + iv(costs@) =~= decode_seq(
                self.bv(),
                c as int,
            ));
        }
        while j < n
            invariant
                self.wf(),
                n == self.0@.len(),
                0 <= j <= n,
                costs@.len() == j,
                (rem as int) < space_size(self.bv().take((n - j) as int)),
                decode_seq(self.bv(), c as int) == decode_seq(
                    self.bv().take((n - j) as int),
                    rem as int,
                ) + iv(costs@),
            decreases n - j,
        {
            proof {
                lemma_radix_le_space(self.bv(), (n - 1 - j) as int);
                lemma_space_prefix(self.bv(), (n - j) as int);
                assert(self.bv().take((n - j) as int).drop_last() =~= self.bv().take(
                    (n - j - 1) as int,
                ));
                assert(self.bv().take((n - j) as int).last() == self.bv()[(n - 1 - j) as int]);
            }
            let b = self.0[n - 1 - j];
            let digit = rem % (b + 1);
            proof {
                lemma_mod_bound(rem as int, b as int + 1);
                lemma_div_pos_is_pos(rem as int, b as int + 1);
                lemma_space_size_pos(self.bv().take((n - j - 1) as int));
                assert(space_size(self.bv().take((n - j) as int)) == space_size(
                    self.bv().take((n - j - 1) as int),
                ) * (b as int + 1));
                assert(space_size(self.bv().take((n - j - 1) as int)) * (b as int + 1) == (
                b as int + 1) * space_size(self.bv().take((n - j - 1) as int)))
                    by (nonlinear_arith);
                lemma_multiply_divide_lt(
                    rem as int,
                    b as int + 1,
                    space_size(self.bv().take((n - j - 1) as int)),
                );
                assert((rem as int) / (b as int + 1) < space_size(
                    self.bv().take((n - j - 1) as int),
                ));
                let old_costs = iv(costs@);
                let dseq = decode_seq(
                    self.bv().take((n - j - 1) as int),
                    (rem as int) / (b as int + 1),
                );
                assert(dseq.push((rem as int) % (b as int + 1)) + old_costs =~= dseq + (Seq::<
                    int,
                >::empty().push((rem as int) % (b as int + 1)) + old_costs));
            }
            let ghost prev = costs@;
            costs.insert(0, digit);
            proof {
                assert(iv(costs@) =~= Seq::<int>::empty().push(digit as int) + iv(prev));
            }
            rem = rem / (b + 1);
            j += 1;
        }
        proof {
            assert(self.bv().take(0) =~= Seq::<int>::empty());
            assert(decode_seq(Seq::<int>::empty(), rem as int) + iv(costs@) =~= iv(costs@));
            lemma_encode_decode(self.bv(), c as int);
        }
        costs
    }

    /// The feasibility check and predecessor step of the hot path: spending
    /// `cost` out of the decoded budget `bound` either fails on a dimension
    /// where the cost exceeds the budget, or lands on the index of the
    /// componentwise difference.
    pub fn validate_sub(&self, bound: &[usize], cost: &[usize]) -> (r: Option<usize>)
        requires
            self.wf(),
            in_range(self.bv(), iv(bound@)),
            cost@.len() == self.0@.len(),
        ensures
            r.is_some() <==> cw_le(iv(cost@), iv(bound@)),
            r.is_some() ==> r.unwrap() as int == encode_seq(
                self.bv(),
                cw_sub(iv(bound@), iv(cost@)),
            ),
            r.is_some() ==> (r.unwrap() as int) < self.sz(),
    {
        let n = self.0.len();
        let mut ans: usize = 0;
        let mut d: usize = 0;
        proof {
            assert(self.bv().take(0) =~= Seq::<int>::empty());
            assert(cw_sub(iv(bound@), iv(cost@)).take(0) =~= Seq::<int>::empty());
        }
        while d < n
            invariant
                self.wf(),
                n == self.0@.len(),
                bound@.len() == n,
                cost@.len() == n,
                in_range(self.bv(), iv(bound@)),
                0 <= d <= n,
                forall|m: int| 0 <= m < d ==> #[trigger] iv(cost@)[m] <= iv(bound@)[m],
                ans as int == encode_seq(
                    self.bv().take(d as int),
                    cw_sub(iv(bound@), iv(cost@)).take(d as int),
                ),
                (ans as int) < space_size(self.bv().take(d as int)),
            decreases n - d,
        {
            if cost[d] > bound[d] {
                proof {
                    assert(iv(cost@)[d as int] > iv(bound@)[d as int]);
                    assert(!cw_le(iv(cost@), iv(bound@)));
                }
                return None;
            }
            proof {
                assert(self.bv().take(d + 1).drop_last() =~= self.bv().take(d as int));
                assert(cw_sub(iv(bound@), iv(cost@)).take(d + 1).drop_last() =~= cw_sub(
                    iv(bound@),
                    iv(cost@),
                ).take(d as int));
                assert(in_range(
                    self.bv().take(d + 1),
                    cw_sub(iv(bound@), iv(cost@)).take(d + 1),
                ));
                lemma_encode_bounds(
                    self.bv().take(d + 1),
                    cw_sub(iv(bound@), iv(cost@)).take(d + 1),
                );
                lemma_space_prefix(self.bv(), d + 1);
                lemma_radix_le_space(self.bv(), d as int);
            }
            ans = ans * (self.0[d] + 1) + (bound[d] - cost[d]);
            d += 1;
        }
        proof {
            assert(self.bv().take(n as int) =~= self.bv());
            assert(cw_sub(iv(bound@), iv(cost@)).take(n as int) =~= cw_sub(
                iv(bound@),
                iv(cost@),
            ));
        }
        Some(ans)
    }
}

} // verus!
