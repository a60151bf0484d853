//! The solver: the shared value table, the item passes and the backtracking
//! reconstruction of the chosen quantities.

use crate::index::{
    cw_le, cw_sub, decode_seq, encode_seq, in_range, iv, lemma_decode_encode, lemma_encode_decode,
    lemma_encode_nonneg, lemma_encode_self, lemma_encode_sub, lemma_iv_nonneg,
    lemma_radix_le_space, lemma_space_prefix, lemma_space_size_pos, nonneg, scaled, space_size,
    Costs,
};
use crate::passes::{
    consistent, consistent_at, improves, lemma_consistent_base, lemma_mp_consistent,
    lemma_single_count_is_one_pass, lemma_zo_consistent, mp_step, pred_idx, tk_bounded, zeros,
    zo_dp, zo_tk,
};
use vstd::pervasive::VecAdditionalExecFns;
use vstd::prelude::*;

verus! {

/// The integer view of a table of 64-bit values.
pub open spec fn iv64(s: Seq<u64>) -> Seq<int> {
    s.map_values(|x: u64| x as int)
}

/// One item type: a display name, a value per copy, the greatest usable
/// count, and a cost in every resource dimension.
pub struct Thing {
    pub name: String,
    pub value: u64,
    pub num: usize,
    pub costs: Vec<usize>,
}

/// The greatest total value any quantity assignment could reach: every item
/// taken at its full count.
pub open spec fn sum_value_num(things: Seq<Thing>) -> int
    decreases things.len(),
{
    if things.len() == 0 {
        0
    } else {
        sum_value_num(things.drop_last()) + things.last().value * things.last().num
    }
}

/// A prefix of the items can never promise more value than the whole list.
pub proof fn lemma_sum_value_num_prefix(things: Seq<Thing>, j: int)
    requires
        0 <= j <= things.len(),
    ensures
        0 <= sum_value_num(things.take(j)) <= sum_value_num(things),
    decreases things.len() - j,
{
    if j == things.len() {
        assert(things.take(j) =~= things);
        lemma_sum_value_num_nonneg(things);
    } else {
        lemma_sum_value_num_prefix(things, j + 1);
        lemma_sum_value_num_nonneg(things.take(j));
        assert(things.take(j + 1).drop_last() =~= things.take(j));
        let t = things[j];
        assert(things.take(j + 1).last() == t);
        assert(t.value * t.num >= 0) by (nonlinear_arith);
    }
}

/// Values and counts are machine words, so the total is never negative.
pub proof fn lemma_sum_value_num_nonneg(things: Seq<Thing>)
    ensures
        sum_value_num(things) >= 0,
    decreases things.len(),
{
    if things.len() > 0 {
        lemma_sum_value_num_nonneg(things.drop_last());
        assert(things.last().value * things.last().num >= 0) by (nonlinear_arith);
    }
}

/// A fresh all-zero value table.
fn zero_u64s(n: usize) -> (r: Vec<u64>)
    ensures
        r@.len() == n,
        iv64(r@) == zeros(n as int),
{
    let mut r: Vec<u64> = Vec::new();
    let mut i: usize = 0;
    while i < n
        invariant
            0 <= i <= n,
            r@.len() == i,
            forall|m: int| 0 <= m < i ==> r@[m] == 0u64,
        decreases n - i,
    {
        r.push(0);
        i += 1;
    }
    proof {
        assert(iv64(r@) =~= zeros(n as int));
    }
    r
}

/// A fresh all-zero quantity table.
fn zero_usizes(n: usize) -> (r: Vec<usize>)
    ensures
        r@.len() == n,
        iv(r@) == zeros(n as int),
{
    let mut r: Vec<usize> = Vec::new();
    let mut i: usize = 0;
    while i < n
        invariant
            0 <= i <= n,
            r@.len() == i,
            forall|m: int| 0 <= m < i ==> r@[m] == 0usize,
        decreases n - i,
    {
        r.push(0);
        i += 1;
    }
    proof {
        assert(iv(r@) =~= zeros(n as int));
    }
    r
}

/// An owned copy of a borrowed cost vector.
fn copy_costs(v: &[usize]) -> (r: Vec<usize>)
    ensures
        r@ == v@,
{
    let n = v.len();
    let mut r: Vec<usize> = Vec::new();
    let mut i: usize = 0;
    while i < n
        invariant
            0 <= i <= n,
            n == v@.len(),
            r@.len() == i,
            forall|m: int| 0 <= m < i ==> r@[m] == v@[m],
        decreases n - i,
    {
        r.push(v[i]);
        i += 1;
    }
    proof {
        assert(r@ =~= v@);
    }
    r
}

/// The cost vector of `k` copies of an item with unit cost `cost`.
fn scale_vec(cost: &[usize], k: usize) -> (r: Vec<usize>)
    requires
        forall|d: int|
            0 <= d < cost@.len() ==> (#[trigger] cost@[d] as int) * (k as int) <= usize::MAX as int,
    ensures
        r@.len() == cost@.len(),
        iv(r@) == scaled(iv(cost@), k as int),
{
    let n = cost.len();
    let mut r: Vec<usize> = Vec::new();
    let mut d: usize = 0;
    while d < n
        invariant
            0 <= d <= n,
            n == cost@.len(),
            forall|m: int|
                0 <= m < cost@.len() ==> (#[trigger] cost@[m] as int) * (k as int)
                    <= usize::MAX as int,
            r@.len() == d,
            forall|m: int| 0 <= m < d ==> #[trigger] r@[m] as int == (k as int) * (cost@[m] as int),
        decreases n - d,
    {
        proof {
            assert((cost@[d as int] as int) * (k as int) == (k as int) * (cost@[d as int] as int))
                by (nonlinear_arith);
        }
        r.push(k * cost[d]);
        d += 1;
    }
    proof {
        assert(iv(r@) =~= scaled(iv(cost@), k as int));
    }
    r
}

/// The value table after the first `j` items have been fed through the
/// binary-splitting reduction, starting from the all-zero table.
pub open spec fn dp_after(things: Seq<Thing>, bounds: Seq<int>, j: int) -> Seq<int>
    decreases j,
{
    if j <= 0 {
        zeros(space_size(bounds))
    } else {
        mp_step(
            dp_after(things, bounds, j - 1),
            zeros(space_size(bounds)),
            bounds,
            iv(things[j - 1].costs@),
            things[j - 1].value as int,
            things[j - 1].num as int,
            1,
        ).0
    }
}

/// The quantity table produced while item `j - 1` was processed.
pub open spec fn tk_of(things: Seq<Thing>, bounds: Seq<int>, j: int) -> Seq<int> {
    mp_step(
        dp_after(things, bounds, j - 1),
        zeros(space_size(bounds)),
        bounds,
        iv(things[j - 1].costs@),
        things[j - 1].value as int,
        things[j - 1].num as int,
        1,
    ).1
}

/// The index the backtracking pass stands on when the items from `k` onward
/// have already paid for their chosen quantities, starting from the greatest
/// index (the full bound vector).
pub open spec fn back_state(things: Seq<Thing>, bounds: Seq<int>, k: int) -> int
    decreases things.len() - k,
{
    if k >= things.len() {
        space_size(bounds) - 1
    } else {
        back_state(things, bounds, k + 1) - encode_seq(
            bounds,
            scaled(
                iv(things[k].costs@),
                tk_of(things, bounds, k + 1)[back_state(things, bounds, k + 1)],
            ),
        )
    }
}

/// The quantity the solver chooses for item `k`.
pub open spec fn chosen_q(things: Seq<Thing>, bounds: Seq<int>, k: int) -> int {
    tk_of(things, bounds, k + 1)[back_state(things, bounds, k + 1)]
}

/// The quantities recorded in a solution's mapping.
pub open spec fn qseq(chosen: Seq<(String, usize)>) -> Seq<int> {
    chosen.map_values(|p: (String, usize)| p.1 as int)
}

/// The integer view of a quantity vector read back to front.
pub open spec fn rev_iv(s: Seq<usize>) -> Seq<int> {
    Seq::new(s.len(), |m: int| s[s.len() - 1 - m] as int)
}

/// The total value of taking quantity `q[i]` of item `i`.
pub open spec fn qsum_value(things: Seq<Thing>, q: Seq<int>) -> int
    decreases things.len(),
{
    if things.len() == 0 {
        0
    } else {
        q[0] * things[0].value + qsum_value(things.skip(1), q.skip(1))
    }
}

/// The total cost in dimension `d` of taking quantity `q[i]` of item `i`.
pub open spec fn qsum_cost(things: Seq<Thing>, q: Seq<int>, d: int) -> int
    decreases things.len(),
{
    if things.len() == 0 {
        0
    } else {
        q[0] * things[0].costs@[d] + qsum_cost(things.skip(1), q.skip(1), d)
    }
}

/// Every item's cost vector covers exactly the bound vector's dimensions.
pub open spec fn lens_match(things: Seq<Thing>, bounds: Seq<int>) -> bool {
    forall|i: int| 0 <= i < things.len() ==> (#[trigger] things[i]).costs@.len() == bounds.len()
}

/// The mirror tables keep the index-space length, and each item's quantity
/// table is consistent with the value tables before and after that item, with
/// quantities never above the item's count.
pub proof fn lemma_dp_after_wf(things: Seq<Thing>, bounds: Seq<int>, j: int)
    requires
        nonneg(bounds),
        0 <= j <= things.len(),
        lens_match(things, bounds),
    ensures
        dp_after(things, bounds, j).len() == space_size(bounds),
        j >= 1 ==> consistent(
            dp_after(things, bounds, j - 1),
            dp_after(things, bounds, j),
            tk_of(things, bounds, j),
            bounds,
            iv(things[j - 1].costs@),
            things[j - 1].value as int,
        ),
        j >= 1 ==> tk_bounded(tk_of(things, bounds, j), things[j - 1].num as int),
    decreases j,
{
    lemma_space_size_pos(bounds);
    if j >= 1 {
        lemma_dp_after_wf(things, bounds, j - 1);
        let prev = dp_after(things, bounds, j - 1);
        let costv = iv(things[j - 1].costs@);
        lemma_iv_nonneg(things[j - 1].costs@);
        lemma_consistent_base(prev, bounds, costv, things[j - 1].value as int);
        lemma_mp_consistent(
            prev,
            prev,
            zeros(prev.len() as int),
            bounds,
            costv,
            things[j - 1].value as int,
            things[j - 1].num as int,
            1,
            0,
        );
    }
}

/// No table entry exceeds the total value of the items processed so far, and
/// none is negative.
pub proof fn lemma_dp_after_bound(things: Seq<Thing>, bounds: Seq<int>, j: int)
    requires
        nonneg(bounds),
        0 <= j <= things.len(),
        lens_match(things, bounds),
    ensures
        forall|c: int|
            0 <= c < dp_after(things, bounds, j).len() ==> 0 <= #[trigger] dp_after(
                things,
                bounds,
                j,
            )[c] <= sum_value_num(things.take(j)),
    decreases j,
{
    lemma_dp_after_wf(things, bounds, j);
    if j == 0 {
    } else {
        lemma_dp_after_bound(things, bounds, j - 1);
        let prev = dp_after(things, bounds, j - 1);
        let cur = dp_after(things, bounds, j);
        let tk = tk_of(things, bounds, j);
        let costv = iv(things[j - 1].costs@);
        let value = things[j - 1].value as int;
        let num = things[j - 1].num as int;
        assert(things.take(j).drop_last() =~= things.take(j - 1));
        assert(things.take(j).last() == things[j - 1]);
        assert forall|c: int| 0 <= c < cur.len() implies 0 <= #[trigger] cur[c] <= sum_value_num(
            things.take(j),
        ) by {
            assert(consistent_at(prev, cur, tk, bounds, costv, value, c));
            let t = tk[c];
            let p = encode_seq(bounds, cw_sub(decode_seq(bounds, c), scaled(costv, t)));
            assert(0 <= prev[p] <= sum_value_num(things.take(j - 1)));
            assert(0 <= t * value <= num * value) by (nonlinear_arith)
                requires
                    0 <= t <= num,
                    value >= 0,
            ;
        }
    }
}

/// The possible failures of validating a problem description, all detected at
/// setup, never during the computation.
#[derive(Clone, Copy, Debug, PartialEq, Eq, Structural)]
pub enum CheckError {
    /// The bound vector has no dimensions at all.
    InvalidDimensions,
    /// An item's cost vector does not match the bound vector's length.
    DimensionMismatch,
    /// The index space would not fit a dense table on this machine.
    CapacityTooLarge,
    /// A scaled cost or a doubled count of one item would not fit a word.
    ItemTooLarge,
    /// The total value of all items at full count would not fit the table.
    ValueTooLarge,
}

/// Each item's count and scaled costs stay within machine words.
pub open spec fn items_ok(things: Seq<Thing>) -> bool {
    &&& forall|i: int| 0 <= i < things.len() ==> (#[trigger] things[i]).num <= usize::MAX / 2
    &&& forall|i: int, d: int|
        0 <= i < things.len() && 0 <= d < things[i].costs@.len() ==> (
        #[trigger] things[i].costs@[d] as int) * (things[i].num as int) <= usize::MAX as int
}

/// The verdict of validation: the first failing check in order, or nothing.
pub open spec fn check_verdict(things: Seq<Thing>, costs: Seq<usize>) -> Option<CheckError> {
    if costs.len() == 0 {
        Some(CheckError::InvalidDimensions)
    } else if !lens_match(things, iv(costs)) {
        Some(CheckError::DimensionMismatch)
    } else if space_size(iv(costs)) > usize::MAX as int {
        Some(CheckError::CapacityTooLarge)
    } else if !items_ok(things) {
        Some(CheckError::ItemTooLarge)
    } else if sum_value_num(things) > u64::MAX as int {
        Some(CheckError::ValueTooLarge)
    } else {
        None
    }
}

/// The result of one solve: the best total value and, for every input item
/// in input order, its name and the chosen quantity.
pub struct Solution {
    pub value: u64,
    pub chosen: Vec<(String, usize)>,
}

/// A problem description as handed over by a parser, not yet validated.
pub struct UncheckedProblem {
    pub things: Vec<Thing>,
    pub costs: Vec<usize>,
}

impl UncheckedProblem {
    /// Validates the description and hands back a ready problem, or the first
    /// failure in checking order. Every failure is found here; the solve
    /// itself is pure arithmetic over the validated values.
    #[verifier::loop_isolation(false)]
    pub fn check(self) -> (r: Result<Problem, CheckError>)
        ensures
            r is Ok <==> check_verdict(self.things@, self.costs@) is None,
            r is Err ==> check_verdict(self.things@, self.costs@) == Some(r->Err_0),
            r is Ok ==> (r->Ok_0).wf() && (r->Ok_0).things == self.things && (r->Ok_0).costs.0
                == self.costs && iv64((r->Ok_0).dp@) == zeros(space_size(iv(self.costs@))),
    {
        proof {
            lemma_iv_nonneg(self.costs@);
        }
        let len = self.costs.len();
        if len == 0 {
            return Err(CheckError::InvalidDimensions);
        }
        let nt = self.things.len();
        let mut i: usize = 0;
        while i < nt
            invariant
                0 <= i <= nt,
                nt == self.things@.len(),
                len == self.costs@.len(),
                forall|m: int| 0 <= m < i ==> (#[trigger] self.things@[m]).costs@.len() == len,
            decreases nt - i,
        {
            if self.things[i].costs.len() != len {
                proof {
                    assert(iv(self.costs@).len() == self.costs@.len());
                    assert(!lens_match(self.things@, iv(self.costs@)));
                    assert(check_verdict(self.things@, self.costs@) == Some(CheckError::DimensionMismatch));
                }
                return Err(CheckError::DimensionMismatch);
            }
            i += 1;
        }
        proof {
            assert(lens_match(self.things@, iv(self.costs@)));
        }
        let mut size: usize = 1;
        let mut d: usize = 0;
        proof {
            assert(iv(self.costs@).take(0) =~= Seq::<int>::empty());
        }
        while d < len
            invariant
                0 <= d <= len,
                len == self.costs@.len(),
                size as int == space_size(iv(self.costs@).take(d as int)),
            decreases len - d,
        {
            proof {
                assert(iv(self.costs@).take(d + 1).drop_last() =~= iv(self.costs@).take(d as int));
                assert(iv(self.costs@).take(d + 1).last() == iv(self.costs@)[d as int]);
                assert(iv(self.costs@)[d as int] == self.costs@[d as int] as int);
            }
            let b = self.costs[d];
            let radix = match b.checked_add(1) {
                Some(radix) => radix,
                None => {
                    proof {
                        assert(iv(self.costs@)[d as int] == self.costs@[d as int] as int);
                        lemma_radix_le_space(iv(self.costs@), d as int);
                        assert(space_size(iv(self.costs@)) > usize::MAX as int);
                        assert(check_verdict(self.things@, self.costs@) == Some(
                            CheckError::CapacityTooLarge,
                        ));
                    }
                    return Err(CheckError::CapacityTooLarge);
                },
            };
            size = match size.checked_mul(radix) {
                Some(s) => s,
                None => {
                    proof {
                        assert(space_size(iv(self.costs@).take(d + 1)) > usize::MAX as int);
                        lemma_space_prefix(iv(self.costs@), d + 1);
                        assert(space_size(iv(self.costs@)) > usize::MAX as int);
                        assert(check_verdict(self.things@, self.costs@) == Some(
                            CheckError::CapacityTooLarge,
                        ));
                    }
                    return Err(CheckError::CapacityTooLarge);
                },
            };
            d += 1;
        }
        proof {
            assert(iv(self.costs@).take(len as int) =~= iv(self.costs@));
            assert(space_size(iv(self.costs@)) <= usize::MAX as int);
        }
        let mut i: usize = 0;
        while i < nt
            invariant
                0 <= i <= nt,
                nt == self.things@.len(),
                len == self.costs@.len(),
                forall|m: int| 0 <= m < i ==> (#[trigger] self.things@[m]).num <= usize::MAX / 2,
                forall|m: int, e: int|
                    0 <= m < i && 0 <= e < self.things@[m].costs@.len() ==> (
                    #[trigger] self.things@[m].costs@[e] as int) * (self.things@[m].num as int)
                        <= usize::MAX as int,
            decreases nt - i,
        {
            let num = self.things[i].num;
            if num > usize::MAX / 2 {
                proof {
                    assert(!items_ok(self.things@));
                    assert(check_verdict(self.things@, self.costs@) == Some(CheckError::ItemTooLarge));
                }
                return Err(CheckError::ItemTooLarge);
            }
            let dd = self.things[i].costs.len();
            let mut e: usize = 0;
            while e < dd
                invariant
                    0 <= e <= dd,
                    0 <= i < nt,
                    nt == self.things@.len(),
                    dd == self.things@[i as int].costs@.len(),
                    num == self.things@[i as int].num,
                    forall|m: int|
                        0 <= m < e ==> (#[trigger] self.things@[i as int].costs@[m] as int) * (
                        num as int) <= usize::MAX as int,
                decreases dd - e,
            {
                match self.things[i].costs[e].checked_mul(num) {
                    Some(_) => {},
                    None => {
                        proof {
                            assert((self.things@[i as int].costs@[e as int] as int) * (
                            self.things@[i as int].num as int) > usize::MAX as int);
                            assert(!items_ok(self.things@));
                            assert(check_verdict(self.things@, self.costs@) == Some(
                                CheckError::ItemTooLarge,
                            ));
                        }
                        return Err(CheckError::ItemTooLarge);
                    },
                }
                e += 1;
            }
            i += 1;
        }
        proof {
            assert(items_ok(self.things@));
        }
        let mut total: u64 = 0;
        let mut i: usize = 0;
        proof {
            assert(self.things@.take(0) =~= Seq::<Thing>::empty());
        }
        while i < nt
            invariant
                0 <= i <= nt,
                nt == self.things@.len(),
                total as int == sum_value_num(self.things@.take(i as int)),
            decreases nt - i,
        {
            proof {
                assert(self.things@.take(i + 1).drop_last() =~= self.things@.take(i as int));
                assert(self.things@.take(i + 1).last() == self.things@[i as int]);
                lemma_sum_value_num_prefix(self.things@, i + 1);
            }
            let num = self.things[i].num;
            let value = self.things[i].value;
            let part = match (num as u64).checked_mul(value) {
                Some(part) => part,
                None => {
                    proof {
                        assert((self.things@[i as int].value as int) * (self.things@[i as int].num as int)
                            == (num as int) * (value as int)) by (nonlinear_arith)
                            requires
                                num == self.things@[i as int].num,
                                value == self.things@[i as int].value,
                        ;
                        lemma_sum_value_num_nonneg(self.things@.take(i as int));
                        assert(sum_value_num(self.things@.take(i + 1)) > u64::MAX as int);
                        assert(sum_value_num(self.things@) > u64::MAX as int);
                        assert(check_verdict(self.things@, self.costs@) == Some(CheckError::ValueTooLarge));
                    }
                    return Err(CheckError::ValueTooLarge);
                },
            };
            proof {
                assert((self.things@[i as int].value as int) * (self.things@[i as int].num as int) == (
                num as int) * (value as int)) by (nonlinear_arith)
                    requires
                        num == self.things@[i as int].num,
                        value == self.things@[i as int].value,
                ;
            }
            total = match total.checked_add(part) {
                Some(t) => t,
                None => {
                    proof {
                        assert(sum_value_num(self.things@.take(i + 1)) > u64::MAX as int);
                        assert(sum_value_num(self.things@) > u64::MAX as int);
                        assert(check_verdict(self.things@, self.costs@) == Some(CheckError::ValueTooLarge));
                    }
                    return Err(CheckError::ValueTooLarge);
                },
            };
            i += 1;
        }
        proof {
            assert(self.things@.take(nt as int) =~= self.things@);
            assert(check_verdict(self.things@, self.costs@) is None);
        }
        Ok(Problem::new(self.things, self.costs))
    }
}

/// One solve in progress: the items, the bound vector and the shared value
/// table, exclusively owned until the solve finishes.
pub struct Problem {
    pub things: Vec<Thing>,
    pub costs: Costs,
    pub dp: Vec<u64>,
}

impl Problem {
    /// The value table is sized to the index space of the bound vector.
    pub open spec fn tables_wf(&self) -> bool {
        &&& self.costs.wf()
        &&& self.dp@.len() == self.costs.sz()
    }

    /// Every item matches the bound vector's dimensions, and the machine
    /// limits hold: scaled costs fit a word, doubled counts fit a word, and
    /// the greatest conceivable total value fits the value table's entries.
    pub open spec fn things_wf(&self) -> bool {
        &&& forall|i: int|
            0 <= i < self.things@.len() ==> (#[trigger] self.things@[i]).costs@.len()
                == self.costs.0@.len()
        &&& forall|i: int|
            0 <= i < self.things@.len() ==> (#[trigger] self.things@[i]).num <= usize::MAX / 2
        &&& forall|i: int, d: int|
            0 <= i < self.things@.len() && 0 <= d < self.costs.0@.len() ==> (
            #[trigger] self.things@[i].costs@[d] as int) * (self.things@[i].num as int)
                <= usize::MAX as int
        &&& sum_value_num(self.things@) <= u64::MAX as int
    }

    pub open spec fn wf(&self) -> bool {
        self.tables_wf() && self.things_wf()
    }

    /// A problem ready to solve: the given items and bounds, and a fresh
    /// all-zero value table covering the whole index space.
    pub fn new(things: Vec<Thing>, costs: Vec<usize>) -> (r: Problem)
        requires
            costs@.len() >= 1,
            space_size(iv(costs@)) <= usize::MAX as int,
            forall|i: int| 0 <= i < things@.len() ==> (#[trigger] things@[i]).costs@.len() == costs@.len(),
            forall|i: int| 0 <= i < things@.len() ==> (#[trigger] things@[i]).num <= usize::MAX / 2,
            forall|i: int, d: int|
                0 <= i < things@.len() && 0 <= d < costs@.len() ==> (
                #[trigger] things@[i].costs@[d] as int) * (things@[i].num as int)
                    <= usize::MAX as int,
            sum_value_num(things@) <= u64::MAX as int,
        ensures
            r.wf(),
            r.things == things,
            r.costs.0 == costs,
            iv64(r.dp@) == zeros(r.costs.sz()),
    {
        let costs = Costs(costs);
        proof {
            lemma_iv_nonneg(costs.0@);
        }
        let e = costs.end();
        let dp = zero_u64s(e + 1);
        Problem { things, costs, dp }
    }

    /// One take-or-leave bundle (cost vector, value increment, quantity label
    /// `k`) applied to the shared value table and a quantity table, walking
    /// indices strictly downward so the read at the predecessor still sees
    /// the table from before this bundle's own contribution.
    pub fn zero_one_pack(&mut self, cost: &[usize], value: u64, k: usize, taked: &mut Vec<usize>)
        requires
            old(self).tables_wf(),
            cost@.len() == old(self).costs.0@.len(),
            old(taked)@.len() == old(self).dp@.len(),
            k >= 1,
            forall|c: int|
                0 <= c < old(self).dp@.len() ==> (#[trigger] old(self).dp@[c] as int) + (
                value as int) <= u64::MAX as int,
            forall|c: int|
                0 <= c < old(taked)@.len() ==> (#[trigger] old(taked)@[c] as int) + (k as int)
                    <= usize::MAX as int,
        ensures
            final(self).things == old(self).things,
            final(self).costs == old(self).costs,
            final(self).dp@.len() == old(self).dp@.len(),
            final(taked)@.len() == old(taked)@.len(),
            iv64(final(self).dp@) == zo_dp(
                iv64(old(self).dp@),
                old(self).costs.bv(),
                iv(cost@),
                value as int,
            ),
            iv(final(taked)@) == zo_tk(
                iv64(old(self).dp@),
                iv(old(taked)@),
                old(self).costs.bv(),
                iv(cost@),
                value as int,
                k as int,
            ),
    {
        let ghost bounds = old(self).costs.bv();
        let ghost dp0 = iv64(old(self).dp@);
        let ghost tk0 = iv(old(taked)@);
        let ghost costv = iv(cost@);
        proof {
            lemma_iv_nonneg(self.costs.0@);
            lemma_iv_nonneg(cost@);
        }
        let len = self.dp.len();
        let mut c: usize = len;
        while c > 0
            invariant
                self.costs == old(self).costs,
                self.things == old(self).things,
                self.costs.wf(),
                bounds == self.costs.bv(),
                costv == iv(cost@),
                cost@.len() == self.costs.0@.len(),
                len == self.costs.sz(),
                self.dp@.len() == len,
                taked@.len() == len,
                dp0.len() == len,
                tk0.len() == len,
                0 <= c <= len,
                forall|i: int| 0 <= i < c ==> #[trigger] iv64(self.dp@)[i] == dp0[i],
                forall|i: int| 0 <= i < c ==> #[trigger] iv(taked@)[i] == tk0[i],
                forall|i: int|
                    c <= i < len ==> #[trigger] iv64(self.dp@)[i] == zo_dp(
                        dp0,
                        bounds,
                        costv,
                        value as int,
                    )[i],
                forall|i: int|
                    c <= i < len ==> #[trigger] iv(taked@)[i] == zo_tk(
                        dp0,
                        tk0,
                        bounds,
                        costv,
                        value as int,
                        k as int,
                    )[i],
                forall|i: int|
                    0 <= i < len ==> (#[trigger] dp0[i]) + value as int <= u64::MAX as int && tk0[i]
                        + k as int <= usize::MAX as int,
            decreases c,
        {
            c -= 1;
            let bound = self.costs.to_cost(c);
            let step = self.costs.validate_sub(bound.as_slice(), cost);
            proof {
                lemma_encode_decode(bounds, c as int);
                lemma_iv_nonneg(cost@);
            }
            match step {
                Some(idx) => {
                    proof {
                        lemma_encode_sub(bounds, decode_seq(bounds, c as int), costv);
                        lemma_encode_nonneg(bounds, costv);
                        assert(idx as int == pred_idx(bounds, costv, c as int));
                        assert(idx as int <= c as int);
                        assert(iv64(self.dp@)[idx as int] == dp0[idx as int]);
                        assert(iv64(self.dp@)[c as int] == dp0[c as int]);
                        assert(iv(taked@)[idx as int] == tk0[idx as int]);
                        assert(iv(taked@)[c as int] == tk0[c as int]);
                        assert(crate::passes::feasible(bounds, costv, c as int));
                    }
                    let cand = self.dp[idx] + value;
                    if cand > self.dp[c] {
                        proof {
                            assert(cand as int == dp0[idx as int] + value as int);
                            assert(improves(dp0, bounds, costv, value as int, c as int));
                        }
                        let t = taked[idx] + k;
                        let ghost dp_before = self.dp@;
                        let ghost tk_before = taked@;
                        self.dp.set(c, cand);
                        taked.set(c, t);
                        proof {
                            assert(self.dp@ == dp_before.update(c as int, cand));
                            assert(taked@ == tk_before.update(c as int, t));
                            assert forall|i: int| 0 <= i < len && i != c implies #[trigger] iv64(
                                self.dp@,
                            )[i] == iv64(dp_before)[i] by {
                                assert(self.dp@[i] == dp_before[i]);
                            }
                            assert forall|i: int| 0 <= i < len && i != c implies #[trigger] iv(
                                taked@,
                            )[i] == iv(tk_before)[i] by {
                                assert(taked@[i] == tk_before[i]);
                            }
                            assert(iv64(self.dp@)[c as int] == dp0[idx as int] + value as int);
                            assert(iv(taked@)[c as int] == tk0[idx as int] + k as int);
                        }
                    } else {
                        proof {
                            assert(cand as int == dp0[idx as int] + value as int);
                            assert(!improves(dp0, bounds, costv, value as int, c as int));
                        }
                    }
                }
                None => {
                    proof {
                        assert(!crate::passes::feasible(bounds, costv, c as int));
                        assert(!improves(dp0, bounds, costv, value as int, c as int));
                    }
                }
            }
            proof {
                assert(iv64(self.dp@)[c as int] == zo_dp(dp0, bounds, costv, value as int)[
                    c as int
                ]);
                assert(iv(taked@)[c as int] == zo_tk(dp0, tk0, bounds, costv, value as int, k as int)[
                    c as int
                ]);
            }
        }
        proof {
            assert(iv64(self.dp@) =~= zo_dp(dp0, bounds, costv, value as int));
            assert(iv(taked@) =~= zo_tk(dp0, tk0, bounds, costv, value as int, k as int));
        }
    }

    /// One count-bounded item realised as a logarithmic number of
    /// take-or-leave bundles: bundle sizes double while they stay below the
    /// remaining count, and one final bundle carries the remainder. Returns
    /// the item's quantity table; an item with no usable copies leaves the
    /// value table untouched, and an item usable once is exactly one pass.
    pub fn multi_pack(&mut self, cost: &[usize], value: u64, num: usize) -> (taked: Vec<usize>)
        requires
            old(self).tables_wf(),
            cost@.len() == old(self).costs.0@.len(),
            num <= usize::MAX / 2,
            forall|d: int|
                0 <= d < cost@.len() ==> (#[trigger] cost@[d] as int) * (num as int)
                    <= usize::MAX as int,
            forall|c: int|
                0 <= c < old(self).dp@.len() ==> (#[trigger] old(self).dp@[c] as int) + (
                num as int) * (value as int) <= u64::MAX as int,
        ensures
            final(self).things == old(self).things,
            final(self).costs == old(self).costs,
            final(self).dp@.len() == old(self).dp@.len(),
            taked@.len() == old(self).dp@.len(),
            iv64(final(self).dp@) == mp_step(
                iv64(old(self).dp@),
                zeros(old(self).dp@.len() as int),
                old(self).costs.bv(),
                iv(cost@),
                value as int,
                num as int,
                1,
            ).0,
            iv(taked@) == mp_step(
                iv64(old(self).dp@),
                zeros(old(self).dp@.len() as int),
                old(self).costs.bv(),
                iv(cost@),
                value as int,
                num as int,
                1,
            ).1,
            consistent(
                iv64(old(self).dp@),
                iv64(final(self).dp@),
                iv(taked@),
                old(self).costs.bv(),
                iv(cost@),
                value as int,
            ),
            tk_bounded(iv(taked@), num as int),
            num == 0 ==> final(self).dp@ == old(self).dp@ && iv(taked@) == zeros(
                old(self).dp@.len() as int,
            ),
            num == 1 ==> iv64(final(self).dp@) == zo_dp(
                iv64(old(self).dp@),
                old(self).costs.bv(),
                iv(cost@),
                value as int,
            ) && iv(taked@) == zo_tk(
                iv64(old(self).dp@),
                zeros(old(self).dp@.len() as int),
                old(self).costs.bv(),
                iv(cost@),
                value as int,
                1,
            ),
    {
        let ghost bounds = old(self).costs.bv();
        let ghost dp0 = iv64(old(self).dp@);
        let ghost costv = iv(cost@);
        let ghost num0 = num as int;
        let len = self.dp.len();
        let mut taked = zero_usizes(len);
        let mut k: usize = 1;
        let mut rem: usize = num;
        proof {
            lemma_iv_nonneg(self.costs.0@);
            lemma_iv_nonneg(cost@);
            lemma_consistent_base(dp0, bounds, costv, value as int);
            assert forall|c: int| 0 <= c < dp0.len() implies #[trigger] dp0[c] >= 0 by {
                assert(dp0[c] == old(self).dp@[c] as int);
            }
        }
        while k < rem
            invariant
                self.costs == old(self).costs,
                self.things == old(self).things,
                self.costs.wf(),
                bounds == self.costs.bv(),
                costv == iv(cost@),
                cost@.len() == self.costs.0@.len(),
                len == self.costs.sz(),
                self.dp@.len() == len,
                taked@.len() == len,
                dp0.len() == len,
                dp0 == iv64(old(self).dp@),
                nonneg(dp0),
                num0 == num as int,
                num <= usize::MAX / 2,
                forall|d: int|
                    0 <= d < cost@.len() ==> (#[trigger] cost@[d] as int) * num0
                        <= usize::MAX as int,
                forall|c: int|
                    0 <= c < len ==> (#[trigger] dp0[c]) + num0 * (value as int)
                        <= u64::MAX as int,
                1 <= k,
                rem <= num,
                consistent(dp0, iv64(self.dp@), iv(taked@), bounds, costv, value as int),
                tk_bounded(iv(taked@), num0 - rem as int),
                mp_step(dp0, zeros(len as int), bounds, costv, value as int, num0, 1) == mp_step(
                    iv64(self.dp@),
                    iv(taked@),
                    bounds,
                    costv,
                    value as int,
                    rem as int,
                    k as int,
                ),
            decreases rem,
        {
            let ghost dp_prev = iv64(self.dp@);
            let ghost tk_prev = iv(taked@);
            proof {
                self.lemma_bundle_fits(dp0, dp_prev, tk_prev, bounds, costv, cost@, value, num0, rem as int, k as int, taked@);
            }
            let sc = scale_vec(cost, k);
            let bval = (k as u64) * value;
            self.zero_one_pack(sc.as_slice(), bval, k, &mut taked);
            proof {
                lemma_zo_consistent(
                    dp0,
                    dp_prev,
                    tk_prev,
                    bounds,
                    costv,
                    value as int,
                    k as int,
                    num0 - rem as int,
                );
            }
            rem = rem - k;
            k = k * 2;
        }
        if rem > 0 {
            let ghost dp_prev = iv64(self.dp@);
            let ghost tk_prev = iv(taked@);
            proof {
                self.lemma_bundle_fits(dp0, dp_prev, tk_prev, bounds, costv, cost@, value, num0, rem as int, rem as int, taked@);
            }
            let sc = scale_vec(cost, rem);
            let bval = (rem as u64) * value;
            self.zero_one_pack(sc.as_slice(), bval, rem, &mut taked);
            proof {
                lemma_zo_consistent(
                    dp0,
                    dp_prev,
                    tk_prev,
                    bounds,
                    costv,
                    value as int,
                    rem as int,
                    num0 - rem as int,
                );
            }
        }
        proof {
            if num == 0 {
                assert(mp_step(dp0, zeros(len as int), bounds, costv, value as int, num0, 1) == (
                    dp0,
                    zeros(len as int),
                ));
                assert forall|c: int| 0 <= c < len implies self.dp@[c] == old(self).dp@[c] by {
                    assert(iv64(self.dp@)[c] == dp0[c]);
                    assert(iv64(self.dp@)[c] == self.dp@[c] as int);
                    assert(dp0[c] == old(self).dp@[c] as int);
                }
                assert(self.dp@ =~= old(self).dp@);
            }
            if num == 1 {
                lemma_single_count_is_one_pass(dp0, zeros(len as int), bounds, costv, value as int);
            }
        }
        taked
    }

    /// Runs one whole solve: every item is fed through the binary-splitting
    /// reduction in input order against the shared value table, then the
    /// chosen quantities are reconstructed by backtracking from the greatest
    /// index. The result is a function of the input alone: the value is the
    /// loaded table's entry at the full-bound index, each quantity is the one
    /// the mirror recursion picks, no quantity exceeds its item's count, the
    /// value equals the total value of the chosen quantities, and every
    /// dimension's total cost stays within its bound.
    #[verifier::loop_isolation(false)]
    #[verifier::rlimit(80)]
    pub fn solve(self) -> (sol: Solution)
        requires
            self.wf(),
            iv64(self.dp@) == zeros(self.costs.sz()),
        ensures
            sol.chosen@.len() == self.things@.len(),
            forall|i: int|
                0 <= i < self.things@.len() ==> (#[trigger] sol.chosen@[i]).0
                    == self.things@[i].name,
            forall|i: int|
                0 <= i < self.things@.len() ==> (#[trigger] sol.chosen@[i]).1
                    <= self.things@[i].num,
            forall|i: int|
                0 <= i < self.things@.len() ==> (#[trigger] sol.chosen@[i]).1 as int == chosen_q(
                    self.things@,
                    self.costs.bv(),
                    i,
                ),
            sol.value as int == dp_after(
                self.things@,
                self.costs.bv(),
                self.things@.len() as int,
            )[self.costs.sz() - 1],
            sol.value as int == qsum_value(self.things@, qseq(sol.chosen@)),
            forall|d: int|
                0 <= d < self.costs.0@.len() ==> qsum_cost(self.things@, qseq(sol.chosen@), d)
                    <= self.costs.0@[d],
    {
        let ghost things0 = self.things@;
        let ghost bounds = self.costs.bv();
        let mut this = self;
        let n = this.things.len();
        let sz = this.dp.len();
        let mut taked: Vec<Vec<usize>> = Vec::new();
        let mut j: usize = 0;
        proof {
            lemma_iv_nonneg(self.costs.0@);
            lemma_space_size_pos(bounds);
            assert(sz as int == space_size(bounds));
            assert(lens_match(things0, bounds));
        }
        while j < n
            invariant
                this.wf(),
                this.things@ == things0,
                this.costs == self.costs,
                sz == this.dp@.len(),
                0 <= j <= n,
                taked@.len() == j,
                iv64(this.dp@) == dp_after(things0, bounds, j as int),
                forall|m: int| 0 <= m < j ==> (#[trigger] taked@[m])@.len() == sz,
                forall|m: int|
                    0 <= m < j ==> iv((#[trigger] taked@[m])@) == tk_of(things0, bounds, m + 1),
            decreases n - j,
        {
            let cost = copy_costs(this.things[j].costs.as_slice());
            let value = this.things[j].value;
            let num = this.things[j].num;
            proof {
                lemma_dp_after_bound(things0, bounds, j as int);
                lemma_sum_value_num_prefix(things0, j + 1);
                assert(things0.take(j + 1).drop_last() =~= things0.take(j as int));
                assert(things0.take(j + 1).last() == things0[j as int]);
                assert((num as int) * (value as int) == (things0[j as int].value as int) * (
                things0[j as int].num as int)) by (nonlinear_arith)
                    requires
                        num == things0[j as int].num,
                        value == things0[j as int].value,
                ;
                assert forall|c: int| 0 <= c < this.dp@.len() implies (#[trigger] this.dp@[c] as int)
                    + (num as int) * (value as int) <= u64::MAX as int by {
                    assert(iv64(this.dp@)[c] == this.dp@[c] as int);
                    assert(dp_after(things0, bounds, j as int)[c] <= sum_value_num(
                        things0.take(j as int),
                    ));
                }
                assert forall|d: int| 0 <= d < cost@.len() implies (#[trigger] cost@[d] as int) * (
                num as int) <= usize::MAX as int by {
                    assert(things0[j as int].costs@[d] == cost@[d]);
                }
            }
            let tk = this.multi_pack(cost.as_slice(), value, num);
            taked.push(tk);
            proof {
                assert(iv(cost@) == iv(things0[j as int].costs@));
                assert(iv64(this.dp@) == dp_after(things0, bounds, j + 1));
                assert(iv(taked@[j as int]@) == tk_of(things0, bounds, j + 1));
            }
            j += 1;
        }
        let end_idx = this.costs.end();
        let opt = this.dp[end_idx];
        proof {
            lemma_encode_self(bounds);
            assert(in_range(bounds, bounds));
            lemma_decode_encode(bounds, bounds);
            assert(decode_seq(bounds, space_size(bounds) - 1) == bounds);
            assert(things0.skip(n as int) =~= Seq::<Thing>::empty());
            assert(rev_iv(Seq::<usize>::empty()) =~= Seq::<int>::empty());
            assert(back_state(things0, bounds, n as int) == space_size(bounds) - 1);
            assert(opt as int == iv64(this.dp@)[end_idx as int]);
        }
        let mut chosen_rev: Vec<usize> = Vec::new();
        let mut v: usize = end_idx;
        let mut k: usize = n;
        while k > 0
            invariant
                0 <= k <= n,
                chosen_rev@.len() == n - k,
                v as int == back_state(things0, bounds, k as int),
                0 <= (v as int) && (v as int) < sz as int,
                opt as int == dp_after(things0, bounds, k as int)[v as int] + qsum_value(
                    things0.skip(k as int),
                    rev_iv(chosen_rev@),
                ),
                forall|d: int|
                    0 <= d < bounds.len() ==> #[trigger] decode_seq(bounds, v as int)[d]
                        + qsum_cost(things0.skip(k as int), rev_iv(chosen_rev@), d) == bounds[d],
                forall|m: int|
                    0 <= m < n - k ==> (#[trigger] chosen_rev@[m]) as int == chosen_q(
                        things0,
                        bounds,
                        n - 1 - m,
                    ),
                forall|m: int|
                    0 <= m < n - k ==> (#[trigger] chosen_rev@[m]) <= things0[n - 1 - m].num,
            decreases k,
        {
            k -= 1;
            let ghost vk1 = v as int;
            let ghost costv_k = iv(things0[k as int].costs@);
            let ghost value_k = things0[k as int].value as int;
            let ghost tkk = tk_of(things0, bounds, k + 1);
            proof {
                lemma_dp_after_wf(things0, bounds, k as int + 1);
                assert(consistent_at(
                    dp_after(things0, bounds, k as int),
                    dp_after(things0, bounds, k + 1),
                    tkk,
                    bounds,
                    costv_k,
                    value_k,
                    vk1,
                ));
            }
            let q = taked[k][v];
            proof {
                assert(iv(taked@[k as int]@)[vk1] == taked@[k as int]@[vk1] as int);
                assert(q as int == tkk[vk1]);
                assert(q as int == chosen_q(things0, bounds, k as int));
                assert(q <= things0[k as int].num);
                assert(cw_le(scaled(costv_k, q as int), decode_seq(bounds, vk1)));
            }
            let cost = copy_costs(this.things[k].costs.as_slice());
            proof {
                assert forall|d: int| 0 <= d < cost@.len() implies (#[trigger] cost@[d] as int) * (
                q as int) <= usize::MAX as int by {
                    assert(things0[k as int].costs@[d] == cost@[d]);
                    assert((cost@[d] as int) * (q as int) <= (cost@[d] as int) * (
                    things0[k as int].num as int)) by (nonlinear_arith)
                        requires
                            cost@[d] as int >= 0,
                            0 <= q as int <= things0[k as int].num as int,
                    ;
                }
            }
            let sc = scale_vec(cost.as_slice(), q);
            proof {
                lemma_encode_decode(bounds, vk1);
                assert(iv(cost@) == costv_k);
                assert forall|d: int| 0 <= d < bounds.len() implies 0 <= #[trigger] iv(sc@)[d]
                    <= bounds[d] by {
                    assert(iv(sc@)[d] == scaled(costv_k, q as int)[d]);
                    assert(scaled(costv_k, q as int)[d] <= decode_seq(bounds, vk1)[d]);
                    assert(decode_seq(bounds, vk1)[d] <= bounds[d]);
                    assert((q as int) * (costv_k[d]) >= 0) by (nonlinear_arith)
                        requires
                            q as int >= 0,
                            costv_k[d] >= 0,
                    ;
                }
                assert(in_range(bounds, iv(sc@)));
            }
            let delta = this.costs.to_idx(sc.as_slice());
            let ghost diff = cw_sub(decode_seq(bounds, vk1), scaled(costv_k, q as int));
            proof {
                lemma_encode_sub(bounds, decode_seq(bounds, vk1), scaled(costv_k, q as int));
                assert(encode_seq(bounds, diff) == vk1 - delta as int);
                assert(0 <= encode_seq(bounds, diff) < sz as int);
                assert(delta <= v);
                assert(in_range(bounds, diff));
                lemma_decode_encode(bounds, diff);
            }
            let ghost crev_old = chosen_rev@;
            chosen_rev.push(q);
            v = v - delta;
            proof {
                assert(v as int == encode_seq(bounds, diff));
                assert(v as int == back_state(things0, bounds, k as int));
                assert(decode_seq(bounds, v as int) == diff);
                assert(rev_iv(chosen_rev@) =~= seq![q as int] + rev_iv(crev_old));
                assert(things0.skip(k as int)[0] == things0[k as int]);
                assert(things0.skip(k as int).skip(1) =~= things0.skip(k + 1));
                assert((seq![q as int] + rev_iv(crev_old))[0] == q as int);
                assert((seq![q as int] + rev_iv(crev_old)).skip(1) =~= rev_iv(crev_old));
                assert(qsum_value(things0.skip(k as int), rev_iv(chosen_rev@)) == (q as int)
                    * value_k + qsum_value(things0.skip(k + 1), rev_iv(crev_old)));
                assert(dp_after(things0, bounds, k + 1)[vk1] == dp_after(things0, bounds, k as int)[
                    v as int
                ] + (q as int) * value_k);
                assert forall|d: int| 0 <= d < bounds.len() implies #[trigger] decode_seq(
                    bounds,
                    v as int,
                )[d] + qsum_cost(things0.skip(k as int), rev_iv(chosen_rev@), d) == bounds[d] by {
                    assert(qsum_cost(things0.skip(k as int), rev_iv(chosen_rev@), d) == (q as int)
                        * (things0[k as int].costs@[d] as int) + qsum_cost(
                        things0.skip(k + 1),
                        rev_iv(crev_old),
                        d,
                    ));
                    assert(diff[d] == decode_seq(bounds, vk1)[d] - (q as int) * costv_k[d]);
                    assert(costv_k[d] == things0[k as int].costs@[d] as int);
                }
            }
        }
        proof {
            assert(things0.skip(0) =~= things0);
            assert(dp_after(things0, bounds, 0) == zeros(space_size(bounds)));
            assert(opt as int == qsum_value(things0, rev_iv(chosen_rev@)));
            lemma_encode_decode(bounds, v as int);
            assert forall|d: int| 0 <= d < bounds.len() implies qsum_cost(
                things0,
                rev_iv(chosen_rev@),
                d,
            ) <= bounds[d] by {
                assert(decode_seq(bounds, v as int)[d] >= 0);
            }
        }
        let mut chosen: Vec<(String, usize)> = Vec::new();
        let mut i: usize = 0;
        while i < n
            invariant
                0 <= i <= n,
                chosen@.len() == i,
                chosen_rev@.len() == n,
                forall|m: int|
                    0 <= m < i ==> (#[trigger] chosen@[m]).0 == things0[m].name && chosen@[m].1
                        == chosen_rev@[n - 1 - m],
            decreases n - i,
        {
            let name = this.things[i].name.clone();
            let q = chosen_rev[n - 1 - i];
            chosen.push((name, q));
            i += 1;
        }
        proof {
            assert forall|m: int| 0 <= m < n implies qseq(chosen@)[m] == rev_iv(chosen_rev@)[m] by {
                assert(qseq(chosen@)[m] == chosen@[m].1 as int);
                assert(rev_iv(chosen_rev@)[m] == chosen_rev@[n - 1 - m] as int);
            }
            assert(qseq(chosen@) =~= rev_iv(chosen_rev@));
            assert forall|i2: int| 0 <= i2 < n implies (#[trigger] chosen@[i2]).1 as int
                == chosen_q(things0, bounds, i2) && chosen@[i2].1 <= things0[i2].num by {
                assert(chosen@[i2].1 == chosen_rev@[n - 1 - i2]);
                assert(chosen_rev@[n - 1 - i2] as int == chosen_q(things0, bounds, n - 1 - (n - 1
                    - i2)));
            }
            assert forall|d: int| 0 <= d < self.costs.0@.len() implies qsum_cost(
                things0,
                qseq(chosen@),
                d,
            ) <= self.costs.0@[d] by {
                assert(bounds[d] == self.costs.0@[d] as int);
                assert(qsum_cost(things0, rev_iv(chosen_rev@), d) <= bounds[d]);
            }
        }
        Solution { value: opt, chosen }
    }

    /// All arithmetic of one bundle of `k` copies stays within machine
    /// limits, given the table is consistent and the quantity headroom holds.
    proof fn lemma_bundle_fits(
        &self,
        dp0: Seq<int>,
        dp_cur: Seq<int>,
        tk_cur: Seq<int>,
        bounds: Seq<int>,
        costv: Seq<int>,
        cost_view: Seq<usize>,
        value: u64,
        num0: int,
        rem: int,
        k: int,
        taked_view: Seq<usize>,
    )
        requires
            self.costs.wf(),
            bounds == self.costs.bv(),
            costv == iv(cost_view),
            dp_cur == iv64(self.dp@),
            tk_cur == iv(taked_view),
            self.dp@.len() == self.costs.sz(),
            taked_view.len() == self.dp@.len(),
            dp0.len() == self.dp@.len(),
            nonneg(dp0),
            consistent(dp0, dp_cur, tk_cur, bounds, costv, value as int),
            tk_bounded(tk_cur, num0 - rem),
            forall|d: int|
                0 <= d < cost_view.len() ==> (#[trigger] cost_view[d] as int) * num0
                    <= usize::MAX as int,
            forall|c: int|
                0 <= c < dp0.len() ==> (#[trigger] dp0[c]) + num0 * (value as int)
                    <= u64::MAX as int,
            1 <= k <= rem <= num0,
            num0 <= usize::MAX / 2,
        ensures
            forall|d: int|
                0 <= d < cost_view.len() ==> (#[trigger] cost_view[d] as int) * k
                    <= usize::MAX as int,
            k * (value as int) <= u64::MAX as int,
            forall|c: int|
                0 <= c < self.dp@.len() ==> (#[trigger] self.dp@[c] as int) + k * (value as int)
                    <= u64::MAX as int,
            forall|c: int|
                0 <= c < taked_view.len() ==> (#[trigger] taked_view[c] as int) + k
                    <= usize::MAX as int,
    {
        assert forall|d: int| 0 <= d < cost_view.len() implies (#[trigger] cost_view[d] as int) * k
            <= usize::MAX as int by {
            assert((cost_view[d] as int) * k <= (cost_view[d] as int) * num0) by (nonlinear_arith)
                requires
                    cost_view[d] as int >= 0,
                    k <= num0,
            ;
        }
        lemma_space_size_pos(bounds);
        assert(dp0.len() >= 1);
        assert(dp0[0] + num0 * (value as int) <= u64::MAX as int);
        assert(k * (value as int) <= num0 * (value as int)) by (nonlinear_arith)
            requires
                1 <= k <= num0,
                value as u64 >= 0,
        ;
        assert forall|c: int| 0 <= c < self.dp@.len() implies (#[trigger] self.dp@[c] as int) + k
            * (value as int) <= u64::MAX as int by {
            assert(consistent_at(dp0, dp_cur, tk_cur, bounds, costv, value as int, c));
            let t = tk_cur[c];
            let p = encode_seq(bounds, cw_sub(decode_seq(bounds, c), scaled(costv, t)));
            assert(dp_cur[c] == dp0[p] + t * (value as int));
            assert(dp0[p] + num0 * (value as int) <= u64::MAX as int);
            assert(t <= num0 - rem);
            assert(t * (value as int) + k * (value as int) <= num0 * (value as int))
                by (nonlinear_arith)
                requires
                    0 <= t,
                    t + k <= num0,
                    (value as int) >= 0,
            ;
            assert(self.dp@[c] as int == dp_cur[c]);
        }
        assert forall|c: int| 0 <= c < taked_view.len() implies (#[trigger] taked_view[c] as int)
            + k <= usize::MAX as int by {
            assert(tk_cur[c] == taked_view[c] as int);
            assert(tk_cur[c] <= num0 - rem);
        }
    }
}

} // verus!
