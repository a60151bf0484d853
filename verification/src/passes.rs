//! The mathematics of the table transitions.
//!
//! `zo_dp` / `zo_tk` state what one take-or-leave bundle does to the value
//! table and to an item's quantity table: an entry improves exactly when the
//! bundle fits in the entry's budget and paying its cost from the predecessor
//! state gains value. `mp_step` states the binary-splitting reduction of a
//! count-bounded item as the sequence of such bundles it generates.
//!
//! `consistent` is the backbone invariant of backtracking: every entry of a
//! quantity table records a quantity whose cost fits in the entry's budget,
//! and paying exactly that cost returns the table to the value it had before
//! the item was processed.

use crate::index::{
    cw_le, cw_sub, decode_seq, encode_seq, in_range, lemma_decode_encode, lemma_encode_bounds,
    lemma_encode_decode, nonneg, scaled, space_size,
};
use vstd::prelude::*;

verus! {

/// The all-zero table of length `n`.
pub open spec fn zeros(n: int) -> Seq<int> {
    Seq::new(n as nat, |c: int| 0)
}

/// The bundle of cost `cost` fits within the budget decoded from index `c`.
pub open spec fn feasible(bounds: Seq<int>, cost: Seq<int>, c: int) -> bool {
    cw_le(cost, decode_seq(bounds, c))
}

/// The index reached from `c` after paying `cost`.
pub open spec fn pred_idx(bounds: Seq<int>, cost: Seq<int>, c: int) -> int {
    encode_seq(bounds, cw_sub(decode_seq(bounds, c), cost))
}

/// Taking the bundle at `c` strictly beats leaving it.
pub open spec fn improves(dp: Seq<int>, bounds: Seq<int>, cost: Seq<int>, value: int, c: int) -> bool {
    feasible(bounds, cost, c) && dp[pred_idx(bounds, cost, c)] + value > dp[c]
}

/// The value table after one take-or-leave bundle of cost `cost` and value
/// `value` is applied to every entry.
pub open spec fn zo_dp(dp: Seq<int>, bounds: Seq<int>, cost: Seq<int>, value: int) -> Seq<int> {
    Seq::new(
        dp.len(),
        |c: int|
            if improves(dp, bounds, cost, value, c) {
                dp[pred_idx(bounds, cost, c)] + value
            } else {
                dp[c]
            },
    )
}

/// The quantity table after the same bundle, labelled with quantity `k`.
pub open spec fn zo_tk(
    dp: Seq<int>,
    tk: Seq<int>,
    bounds: Seq<int>,
    cost: Seq<int>,
    value: int,
    k: int,
) -> Seq<int> {
    Seq::new(
        tk.len(),
        |c: int|
            if improves(dp, bounds, cost, value, c) {
                tk[pred_idx(bounds, cost, c)] + k
            } else {
                tk[c]
            },
    )
}

/// Binary/exponential splitting of an item usable up to `num` times: while
/// the doubling bundle size is still below the remaining count, apply one
/// bundle of `k` copies and double; a final bundle of the remainder follows.
pub open spec fn mp_step(
    dp: Seq<int>,
    tk: Seq<int>,
    bounds: Seq<int>,
    cost: Seq<int>,
    value: int,
    num: int,
    k: int,
) -> (Seq<int>, Seq<int>)
    decreases num,
{
    if 1 <= k && k < num {
        mp_step(
            zo_dp(dp, bounds, scaled(cost, k), k * value),
            zo_tk(dp, tk, bounds, scaled(cost, k), k * value, k),
            bounds,
            cost,
            value,
            num - k,
            2 * k,
        )
    } else if num > 0 {
        (
            zo_dp(dp, bounds, scaled(cost, num), num * value),
            zo_tk(dp, tk, bounds, scaled(cost, num), num * value, num),
        )
    } else {
        (dp, tk)
    }
}

/// Every recorded quantity is at most `m`.
pub open spec fn tk_bounded(tk: Seq<int>, m: int) -> bool {
    forall|c: int| 0 <= c < tk.len() ==> #[trigger] tk[c] <= m
}

/// Entry `c` of the quantity table is consistent with the value tables before
/// (`dp0`) and after (`dp`) the item was processed: the recorded quantity is
/// non-negative, its total cost fits in the budget decoded from `c`, and
/// paying it leads back to an in-range index whose earlier value the entry
/// improves upon by exactly quantity times unit value.
pub open spec fn consistent_at(
    dp0: Seq<int>,
    dp: Seq<int>,
    tk: Seq<int>,
    bounds: Seq<int>,
    cost: Seq<int>,
    value: int,
    c: int,
) -> bool {
    &&& 0 <= tk[c]
    &&& cw_le(scaled(cost, tk[c]), decode_seq(bounds, c))
    &&& 0 <= encode_seq(bounds, cw_sub(decode_seq(bounds, c), scaled(cost, tk[c]))) < dp0.len()
    &&& dp[c] == dp0[encode_seq(bounds, cw_sub(decode_seq(bounds, c), scaled(cost, tk[c])))]
        + tk[c] * value
}

/// The whole quantity table is consistent with the two value tables.
pub open spec fn consistent(
    dp0: Seq<int>,
    dp: Seq<int>,
    tk: Seq<int>,
    bounds: Seq<int>,
    cost: Seq<int>,
    value: int,
) -> bool {
    &&& dp.len() == dp0.len()
    &&& tk.len() == dp.len()
    &&& forall|c: int|
        0 <= c < dp.len() ==> #[trigger] consistent_at(dp0, dp, tk, bounds, cost, value, c)
}

/// Before any bundle of an item is applied, the all-zero quantity table is
/// consistent with the unchanged value table.
pub proof fn lemma_consistent_base(dp0: Seq<int>, bounds: Seq<int>, cost: Seq<int>, value: int)
    requires
        nonneg(bounds),
        cost.len() == bounds.len(),
        dp0.len() == space_size(bounds),
    ensures
        consistent(dp0, dp0, zeros(dp0.len() as int), bounds, cost, value),
        tk_bounded(zeros(dp0.len() as int), 0),
{
    let tk = zeros(dp0.len() as int);
    assert forall|c: int| 0 <= c < dp0.len() implies #[trigger] consistent_at(
        dp0,
        dp0,
        tk,
        bounds,
        cost,
        value,
        c,
    ) by {
        lemma_encode_decode(bounds, c);
        assert(scaled(cost, 0) =~= Seq::new(cost.len(), |d: int| 0));
        assert(cw_le(scaled(cost, 0), decode_seq(bounds, c)));
        assert(cw_sub(decode_seq(bounds, c), scaled(cost, 0)) =~= decode_seq(bounds, c));
    }
}

/// One take-or-leave bundle of `kk` copies preserves consistency, and raises
/// the quantity ceiling by exactly the bundle size.
pub proof fn lemma_zo_consistent(
    dp0: Seq<int>,
    dp: Seq<int>,
    tk: Seq<int>,
    bounds: Seq<int>,
    cost: Seq<int>,
    value: int,
    kk: int,
    s: int,
)
    requires
        nonneg(bounds),
        nonneg(cost),
        cost.len() == bounds.len(),
        dp0.len() == space_size(bounds),
        consistent(dp0, dp, tk, bounds, cost, value),
        tk_bounded(tk, s),
        kk >= 1,
        s >= 0,
    ensures
        consistent(
            dp0,
            zo_dp(dp, bounds, scaled(cost, kk), kk * value),
            zo_tk(dp, tk, bounds, scaled(cost, kk), kk * value, kk),
            bounds,
            cost,
            value,
        ),
        tk_bounded(zo_tk(dp, tk, bounds, scaled(cost, kk), kk * value, kk), s + kk),
{
    let sc = scaled(cost, kk);
    let bval = kk * value;
    let ndp = zo_dp(dp, bounds, sc, bval);
    let ntk = zo_tk(dp, tk, bounds, sc, bval, kk);
    assert forall|c: int| 0 <= c < ndp.len() implies #[trigger] consistent_at(
        dp0,
        ndp,
        ntk,
        bounds,
        cost,
        value,
        c,
    ) && ntk[c] <= s + kk by {
        if improves(dp, bounds, sc, bval, c) {
            let dc = decode_seq(bounds, c);
            lemma_encode_decode(bounds, c);
            assert forall|d: int| 0 <= d < cost.len() implies #[trigger] sc[d] >= 0 by {
                assert(kk * cost[d] >= 0) by (nonlinear_arith)
                    requires
                        kk >= 1,
                        cost[d] >= 0,
                ;
            }
            let diff = cw_sub(dc, sc);
            assert(in_range(bounds, diff));
            lemma_encode_bounds(bounds, diff);
            let p = pred_idx(bounds, sc, c);
            assert(p == encode_seq(bounds, diff));
            lemma_decode_encode(bounds, diff);
            assert(decode_seq(bounds, p) == diff);
            assert(consistent_at(dp0, dp, tk, bounds, cost, value, p));
            let t = tk[p];
            assert forall|d: int| 0 <= d < cost.len() implies #[trigger] scaled(cost, t + kk)[d]
                == scaled(cost, t)[d] + sc[d] by {
                assert((t + kk) * cost[d] == t * cost[d] + kk * cost[d]) by (nonlinear_arith);
            }
            assert(cw_le(scaled(cost, t + kk), dc));
            assert(cw_sub(dc, scaled(cost, t + kk)) =~= cw_sub(
                decode_seq(bounds, p),
                scaled(cost, t),
            ));
            assert((t + kk) * value == t * value + kk * value) by (nonlinear_arith);
            assert(ntk[c] == t + kk);
            assert(ndp[c] == dp[p] + bval);
        } else {
            assert(consistent_at(dp0, dp, tk, bounds, cost, value, c));
        }
    }
    assert forall|c: int| 0 <= c < ntk.len() implies #[trigger] ntk[c] <= s + kk by {
        assert(consistent_at(dp0, ndp, ntk, bounds, cost, value, c));
    }
}

/// The full binary-splitting pass sequence preserves consistency, and raises
/// the quantity ceiling by at most the item's remaining count.
pub proof fn lemma_mp_consistent(
    dp0: Seq<int>,
    dp: Seq<int>,
    tk: Seq<int>,
    bounds: Seq<int>,
    cost: Seq<int>,
    value: int,
    num: int,
    k: int,
    s: int,
)
    requires
        nonneg(bounds),
        nonneg(cost),
        cost.len() == bounds.len(),
        dp0.len() == space_size(bounds),
        consistent(dp0, dp, tk, bounds, cost, value),
        tk_bounded(tk, s),
        k >= 1,
        num >= 0,
        s >= 0,
    ensures
        consistent(
            dp0,
            mp_step(dp, tk, bounds, cost, value, num, k).0,
            mp_step(dp, tk, bounds, cost, value, num, k).1,
            bounds,
            cost,
            value,
        ),
        tk_bounded(mp_step(dp, tk, bounds, cost, value, num, k).1, s + num),
    decreases num,
{
    if 1 <= k && k < num {
        lemma_zo_consistent(dp0, dp, tk, bounds, cost, value, k, s);
        lemma_mp_consistent(
            dp0,
            zo_dp(dp, bounds, scaled(cost, k), k * value),
            zo_tk(dp, tk, bounds, scaled(cost, k), k * value, k),
            bounds,
            cost,
            value,
            num - k,
            2 * k,
            s + k,
        );
    } else if num > 0 {
        lemma_zo_consistent(dp0, dp, tk, bounds, cost, value, num, s);
    }
}

/// An item with no usable copies generates no bundle: both tables are left
/// exactly as they were.
pub proof fn lemma_zero_count_is_identity(
    dp: Seq<int>,
    tk: Seq<int>,
    bounds: Seq<int>,
    cost: Seq<int>,
    value: int,
    k: int,
)
    ensures
        mp_step(dp, tk, bounds, cost, value, 0, k) == (dp, tk),
{
}

/// An item usable at most once reduces to exactly one take-or-leave bundle of
/// the unscaled cost and value, labelled with quantity 1.
pub proof fn lemma_single_count_is_one_pass(
    dp: Seq<int>,
    tk: Seq<int>,
    bounds: Seq<int>,
    cost: Seq<int>,
    value: int,
)
    ensures
        mp_step(dp, tk, bounds, cost, value, 1, 1).0 == zo_dp(dp, bounds, cost, value),
        mp_step(dp, tk, bounds, cost, value, 1, 1).1 == zo_tk(dp, tk, bounds, cost, value, 1),
{
    assert(scaled(cost, 1) =~= cost);
}

} // verus!
