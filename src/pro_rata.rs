//! Pro-rata matching: one price level shared in proportion to resting size.
use vstd::prelude::*;

use vstd::arithmetic::div_mod::{
    lemma_div_is_ordered, lemma_div_multiples_vanish, lemma_fundamental_div_mod, lemma_mod_bound,
    lemma_mod_multiples_basic,
};
use vstd::arithmetic::mul::{lemma_mul_inequality, lemma_mul_is_distributive_add};

use std::collections::VecDeque;

use crate::book::{
    at_least_as_good, crosses, crosses_exec, fills_total, lemma_total_quantity_append, opposite,
    lemma_rest_keeps_uncrossed, records, rest, rest_order, side_wf, snapshot, total_quantity,
    trade_is, uncrossed, Fill,
};
use crate::order::{Order, Side};
use crate::trade::{Trade, TradeRanks};

verus! {

/// The sum of the first `n` sizes.
pub open spec fn size_sum(s: Seq<u64>, n: int) -> nat
    decreases n,
{
    if n <= 0 {
        0
    } else {
        (size_sum(s, n - 1) + s[n - 1]) as nat
    }
}

/// The sum of all sizes.
pub open spec fn size_total(s: Seq<u64>) -> nat {
    size_sum(s, s.len() as int)
}

/// The proportional share of entry `i` before the remainder is handed out:
/// `floor(q * s[i] / T)` with `T` the sum of all sizes.
pub open spec fn base_share(s: Seq<u64>, q: nat, i: int) -> nat {
    ((q * s[i]) / (size_total(s) as int)) as nat
}

/// The sum of the first `n` base shares.
pub open spec fn base_sum(s: Seq<u64>, q: nat, n: int) -> nat
    decreases n,
{
    if n <= 0 {
        0
    } else {
        base_sum(s, q, n - 1) + base_share(s, q, n - 1)
    }
}

/// The units that the base shares leave undistributed.
pub open spec fn leftover(s: Seq<u64>, q: nat) -> nat {
    (q - base_sum(s, q, s.len() as int)) as nat
}

/// The allocation of entry `i`: its base share, plus one unit for each of
/// the first `leftover` entries in arrival order.
pub open spec fn allocation(s: Seq<u64>, q: nat, i: int) -> nat {
    base_share(s, q, i) + if i < leftover(s, q) {
        1nat
    } else {
        0nat
    }
}

/// The sum of the first `n` allocations.
pub open spec fn allocation_sum(s: Seq<u64>, q: nat, n: int) -> nat
    decreases n,
{
    if n <= 0 {
        0
    } else {
        allocation_sum(s, q, n - 1) + allocation(s, q, n - 1)
    }
}

spec fn slack_sum(s: Seq<u64>, q: nat, n: int) -> nat
    decreases n,
{
    if n <= 0 {
        0
    } else {
        (slack_sum(s, q, n - 1) + (q * s[n - 1]) % (size_total(s) as int)) as nat
    }
}

proof fn lemma_base_sum_parts(s: Seq<u64>, q: nat, n: int)
    requires
        size_total(s) > 0,
        0 <= n <= s.len(),
    ensures
        size_total(s) * base_sum(s, q, n) + slack_sum(s, q, n) == q * size_sum(s, n),
        slack_sum(s, q, n) <= n * (size_total(s) - 1),
        q == size_total(s) ==> slack_sum(s, q, n) == 0,
    decreases n,
{
    if n > 0 {
        let t = size_total(s) as int;
        lemma_base_sum_parts(s, q, n - 1);
        let x = q * s[n - 1];
        lemma_fundamental_div_mod(x, t);
        lemma_mod_bound(x, t);
        assert(x >= 0) by (nonlinear_arith)
            requires
                x == q * s[n - 1],
                q >= 0,
                s[n - 1] >= 0,
        ;
        assert(x / t >= 0) by (nonlinear_arith)
            requires
                x >= 0,
                t > 0,
        ;
        assert(base_share(s, q, n - 1) == x / t);
        assert(size_sum(s, n) == size_sum(s, n - 1) + s[n - 1]);
        lemma_mul_is_distributive_add(q as int, size_sum(s, n - 1) as int, s[n - 1] as int);
        lemma_mul_is_distributive_add(t, base_sum(s, q, n - 1) as int, base_share(s, q, n - 1) as int);
        assert((n - 1) * (t - 1) + (t - 1) == n * (t - 1)) by (nonlinear_arith);
        let b0 = base_sum(s, q, n - 1) as int;
        let m0 = slack_sum(s, q, n - 1) as int;
        let z0 = size_sum(s, n - 1) as int;
        let r = s[n - 1] as int;
        assert(t * (b0 + x / t) + (m0 + x % t) == q * (z0 + r)) by (nonlinear_arith)
            requires
                t * b0 + m0 == q * z0,
                x == t * (x / t) + x % t,
                x == q * r,
        ;
        assert(base_sum(s, q, n) == b0 + x / t);
        assert(slack_sum(s, q, n) == m0 + x % t);
        assert(size_sum(s, n) == z0 + r);
        assert(t * base_sum(s, q, n) + slack_sum(s, q, n) == q * size_sum(s, n));
        if q == t {
            lemma_mod_multiples_basic(s[n - 1] as int, t);
            assert(x == s[n - 1] * t) by (nonlinear_arith)
                requires
                    x == q * s[n - 1],
                    q == t,
            ;
        }
    } else {
        assert(q * size_sum(s, n) == 0) by (nonlinear_arith)
            requires
                size_sum(s, n) == 0,
        ;
        assert(size_total(s) * base_sum(s, q, n) == 0) by (nonlinear_arith)
            requires
                base_sum(s, q, n) == 0,
        ;
    }
}

proof fn lemma_allocation_sum(s: Seq<u64>, q: nat, n: int)
    requires
        0 <= n <= s.len(),
    ensures
        allocation_sum(s, q, n) == base_sum(s, q, n) + if n < leftover(s, q) {
            n as nat
        } else {
            leftover(s, q)
        },
    decreases n,
{
    if n > 0 {
        lemma_allocation_sum(s, q, n - 1);
    }
}

proof fn lemma_size_sum_positive(s: Seq<u64>, n: int)
    requires
        0 <= n <= s.len(),
        size_sum(s, n) > 0,
    ensures
        n > 0,
{
}

/// Pro-rata allocation over positive sizes `s` of a match quantity `q` no
/// larger than their total: every allocation lies between its proportional
/// floor and one more, never exceeds its size, and the allocations add up to
/// exactly `q`.  The units left over by the floors are fewer than the entries,
/// so each entry receives at most one of them, in arrival order.
pub proof fn lemma_allocation(s: Seq<u64>, q: nat)
    requires
        forall|i: int| 0 <= i < s.len() ==> s[i] > 0,
        0 < size_total(s),
        q <= size_total(s),
    ensures
        base_sum(s, q, s.len() as int) <= q,
        leftover(s, q) < s.len(),
        allocation_sum(s, q, s.len() as int) == q,
        forall|i: int|
            0 <= i < s.len() ==> base_share(s, q, i) <= #[trigger] allocation(s, q, i) <= base_share(
                s,
                q,
                i,
            ) + 1 && allocation(s, q, i) <= s[i],
{
    let t = size_total(s) as int;
    let n = s.len() as int;
    lemma_size_sum_positive(s, n);
    lemma_base_sum_parts(s, q, n);
    let b = base_sum(s, q, n) as int;
    let m = slack_sum(s, q, n) as int;
    assert(b <= q) by (nonlinear_arith)
        requires
            t * b + m == q * t,
            m >= 0,
            t > 0,
    ;
    assert(q - b < n) by (nonlinear_arith)
        requires
            t * b + m == q * t,
            m <= n * (t - 1),
            t > 0,
            n > 0,
    ;
    lemma_allocation_sum(s, q, n);
    assert forall|i: int| 0 <= i < s.len() implies base_share(s, q, i) <= #[trigger] allocation(
        s,
        q,
        i,
    ) <= base_share(s, q, i) + 1 && allocation(s, q, i) <= s[i] by {
        let r = s[i] as int;
        lemma_mul_inequality(q as int, t, r);
        assert(q * r <= t * r) by (nonlinear_arith)
            requires
                q <= t,
                r >= 0,
        ;
        lemma_div_is_ordered(q * r, t * r, t);
        lemma_div_multiples_vanish(r, t);
        if i < leftover(s, q) && base_share(s, q, i) == r {
            lemma_fundamental_div_mod(q * r, t);
            lemma_mod_bound(q * r, t);
            assert(q >= t) by (nonlinear_arith)
                requires
                    q * r == t * r + (q * r) % t,
                    (q * r) % t < t,
                    (q * r) % t >= 0,
                    r > 0,
                    t > 0,
            ;
            assert(t * b == q * t);
            assert(b == q) by (nonlinear_arith)
                requires
                    t * b == q * t,
                    t > 0,
            ;
        }
    }
}

/// Splits the match quantity `q` over the positive sizes `sizes` in
/// proportion to size: each entry gets `floor(q * size / total)`, and the units
/// that the floors leave over go one each to the earliest entries.
pub fn allocate(sizes: &Vec<u64>, q: u64) -> (r: Vec<u64>)
    requires
        forall|i: int| 0 <= i < sizes@.len() ==> sizes@[i] > 0,
        0 < size_total(sizes@),
        q <= size_total(sizes@),
    ensures
        r@.len() == sizes@.len(),
        forall|i: int| 0 <= i < r@.len() ==> r@[i] == allocation(sizes@, q as nat, i),
{
    let ghost s = sizes@;
    let n = sizes.len();
    proof {
        lemma_allocation(s, q as nat);
    }
    let mut total: u128 = 0;
    let mut i: usize = 0;
    while i < n
        invariant
            n == s.len(),
            s == sizes@,
            0 <= i <= n,
            total == size_sum(s, i as int),
            size_sum(s, i as int) <= i * (u64::MAX as int),
        decreases n - i,
    {
        assert((i + 1) * (u64::MAX as int) < u128::MAX) by (nonlinear_arith)
            requires
                i < n,
                n <= usize::MAX,
                usize::MAX <= u64::MAX,
        ;
        assert(i * (u64::MAX as int) + (u64::MAX as int) == (i + 1) * (u64::MAX as int))
            by (nonlinear_arith);
        total = total + sizes[i] as u128;
        i = i + 1;
    }
    let mut r: Vec<u64> = Vec::new();
    let mut floors: u128 = 0;
    i = 0;
    while i < n
        invariant
            n == s.len(),
            s == sizes@,
            0 <= i <= n,
            total == size_total(s),
            total > 0,
            q <= total,
            r@.len() == i,
            forall|j: int| 0 <= j < i ==> r@[j] == base_share(s, q as nat, j),
            floors == base_sum(s, q as nat, i as int),
            base_sum(s, q as nat, i as int) <= size_sum(s, i as int),
            size_sum(s, i as int) <= total,
            forall|j: int| 0 <= j < s.len() ==> base_share(s, q as nat, j) <= #[trigger] allocation(s, q as nat, j) <= s[j],
        decreases n - i,
    {
        let x = sizes[i];
        assert(q as int * x as int <= u64::MAX as int * u64::MAX as int) by (nonlinear_arith)
            requires
                q <= u64::MAX,
                x <= u64::MAX,
        ;
        assert(u64::MAX as int * u64::MAX as int <= u128::MAX) by (nonlinear_arith);
        let f = (q as u128) * (x as u128) / total;
        assert(f == base_share(s, q as nat, i as int));
        assert(allocation(s, q as nat, i as int) <= s[i as int]);
        assert(size_sum(s, i + 1) == size_sum(s, i as int) + s[i as int]);
        proof {
            lemma_size_sum_prefix(s, i + 1);
        }
        r.push(f as u64);
        floors = floors + f;
        i = i + 1;
    }
    let mut rem: u64 = (q as u128 - floors) as u64;
    let mut k: usize = 0;
    while rem > 0
        invariant
            n == s.len(),
            s == sizes@,
            r@.len() == n,
            0 <= k <= n,
            rem + k == leftover(s, q as nat),
            leftover(s, q as nat) < n,
            forall|j: int| 0 <= j < k ==> r@[j] == allocation(s, q as nat, j),
            forall|j: int| k <= j < n ==> r@[j] == base_share(s, q as nat, j),
            forall|j: int| 0 <= j < s.len() ==> base_share(s, q as nat, j) <= #[trigger] allocation(s, q as nat, j) <= s[j],
        decreases rem,
    {
        let v = r[k];
        assert(allocation(s, q as nat, k as int) == v + 1);
        r.set(k, v + 1);
        k = k + 1;
        rem = rem - 1;
    }
    r
}

proof fn lemma_size_sum_prefix(s: Seq<u64>, n: int)
    requires
        0 <= n <= s.len(),
    ensures
        size_sum(s, n) <= size_total(s),
    decreases s.len() - n,
{
    if n < s.len() {
        lemma_size_sum_prefix(s, n + 1);
    }
}

/// The sum of `sizes`, exactly.
fn sum_sizes(sizes: &Vec<u64>) -> (t: u128)
    ensures
        t == size_total(sizes@),
{
    let n = sizes.len();
    let mut total: u128 = 0;
    let mut i: usize = 0;
    while i < n
        invariant
            n == sizes@.len(),
            0 <= i <= n,
            total == size_sum(sizes@, i as int),
            size_sum(sizes@, i as int) <= i * (u64::MAX as int),
        decreases n - i,
    {
        assert((i + 1) * (u64::MAX as int) < u128::MAX) by (nonlinear_arith)
            requires
                i < n,
                n <= usize::MAX,
                usize::MAX <= u64::MAX,
        ;
        assert(i * (u64::MAX as int) + (u64::MAX as int) == (i + 1) * (u64::MAX as int))
            by (nonlinear_arith);
        total = total + sizes[i] as u128;
        i = i + 1;
    }
    total
}

/// The length of the leading run of `book` priced exactly `price`.
pub open spec fn level_len(book: Seq<Order>, price: u64) -> nat
    decreases book.len(),
{
    if book.len() == 0 || book[0].price != price {
        0
    } else {
        1 + level_len(book.drop_first(), price)
    }
}

/// The leading run of `book` priced exactly `price`: the orders eligible for
/// a pro-rata match at that price.
pub open spec fn level_of(book: Seq<Order>, price: u64) -> Seq<Order> {
    book.subrange(0, level_len(book, price) as int)
}

/// The resting sizes of `level`, in arrival order.
pub open spec fn quantities(level: Seq<Order>) -> Seq<u64> {
    Seq::new(level.len(), |i: int| level[i].quantity)
}

/// The units a pro-rata match of `qty` takes from `level`: all of `qty`, or
/// the whole level when it holds less.
pub open spec fn match_quantity(level: Seq<Order>, qty: nat) -> nat {
    let t = size_total(quantities(level));
    if qty < t {
        qty
    } else {
        t
    }
}

/// The fills of a pro-rata match of `q` units over `level`, from entry `i`
/// on: one per nonzero allocation, in arrival order.
pub open spec fn pro_rata_fills(level: Seq<Order>, q: nat, i: int) -> Seq<Fill>
    decreases level.len() - i,
{
    if i < 0 || i >= level.len() {
        seq![]
    } else {
        let a = allocation(quantities(level), q, i);
        let later = pro_rata_fills(level, q, i + 1);
        if a > 0 {
            seq![Fill { maker_id: level[i].id, price: level[i].price, quantity: a as u64 }] + later
        } else {
            later
        }
    }
}

/// What remains of `level` after a pro-rata match of `q` units, from entry
/// `i` on: each order reduced by its allocation, the filled ones gone.
pub open spec fn pro_rata_rest(level: Seq<Order>, q: nat, i: int) -> Seq<Order>
    decreases level.len() - i,
{
    if i < 0 || i >= level.len() {
        seq![]
    } else {
        let a = allocation(quantities(level), q, i);
        let later = pro_rata_rest(level, q, i + 1);
        if a < level[i].quantity {
            seq![Order { quantity: (level[i].quantity - a) as u64, ..level[i] }] + later
        } else {
            later
        }
    }
}

proof fn lemma_level_len(book: Seq<Order>, price: u64, k: int)
    requires
        0 <= k <= book.len(),
        forall|j: int| 0 <= j < k ==> #[trigger] book[j].price == price,
        k == book.len() || book[k].price != price,
    ensures
        level_len(book, price) == k,
    decreases k,
{
    if k > 0 {
        let t = book.drop_first();
        assert forall|j: int| 0 <= j < k - 1 implies #[trigger] t[j].price == price by {
            assert(t[j] == book[j + 1]);
        }
        if k < book.len() {
            assert(t[k - 1] == book[k]);
        }
        lemma_level_len(t, price, k - 1);
    }
}

proof fn lemma_pro_rata_rest_shape(level: Seq<Order>, q: nat, i: int, price: u64, side: Side)
    requires
        0 <= i <= level.len(),
        forall|k: int|
            0 <= k < level.len() ==> (#[trigger] level[k]).price == price && level[k].side == side
                && level[k].quantity > 0,
    ensures
        forall|m: int|
            0 <= m < pro_rata_rest(level, q, i).len() ==> (#[trigger] pro_rata_rest(level, q, i)[m]).price
                == price && pro_rata_rest(level, q, i)[m].side == side && pro_rata_rest(
                level,
                q,
                i,
            )[m].quantity > 0,
    decreases level.len() - i,
{
    if i < level.len() {
        lemma_pro_rata_rest_shape(level, q, i + 1, price, side);
    }
}

proof fn lemma_allocation_sum_prefix(s: Seq<u64>, q: nat, n: int)
    requires
        0 <= n <= s.len(),
    ensures
        allocation_sum(s, q, n) <= allocation_sum(s, q, s.len() as int),
    decreases s.len() - n,
{
    if n < s.len() {
        lemma_allocation_sum_prefix(s, q, n + 1);
    }
}

/// Matches an aggressor with id `taker` on `side` for up to `qty` units
/// against the leading run of `book` priced `price`, in proportion to
/// resting size.  Orders past that run are untouched.  Returns the units left
/// unfilled.
pub(crate) fn match_level(
    book: &mut VecDeque<Order>,
    side: Side,
    taker: u64,
    price: u64,
    qty: u64,
    trades: &mut Vec<Trade>,
    ranks: &mut TradeRanks,
) -> (left: u64)
    requires
        side_wf(old(book)@, opposite(side)),
        old(ranks).has_room(qty as nat),
    ensures
        ({
            let level = level_of(old(book)@, price);
            let q = match_quantity(level, qty as nat);
            let fills = pro_rata_fills(level, q, 0);
            &&& final(book)@ == pro_rata_rest(level, q, 0) + old(book)@.subrange(
                level.len() as int,
                old(book)@.len() as int,
            )
            &&& left == qty - q
            &&& final(trades)@.len() == old(trades)@.len() + fills.len()
            &&& final(trades)@.subrange(0, old(trades)@.len() as int) == old(trades)@
            &&& records(
                final(trades)@.subrange(old(trades)@.len() as int, final(trades)@.len() as int),
                side,
                taker,
                fills,
                old(ranks)@,
            )
            &&& final(ranks)@ == old(ranks)@ + fills.len()
            &&& fills.len() <= q
        }),
        side_wf(final(book)@, opposite(side)),
{
    let ghost b0 = book@;
    let ghost start = trades@.len() as int;
    let ghost r0 = ranks@;
    let n = book.len();
    let mut len: usize = 0;
    while len < n && book[len].price == price
        invariant
            book@ == b0,
            n == b0.len(),
            0 <= len <= n,
            forall|j: int| 0 <= j < len ==> #[trigger] b0[j].price == price,
        decreases n - len,
    {
        len = len + 1;
    }
    proof {
        lemma_level_len(b0, price, len as int);
    }
    let ghost level = level_of(b0, price);
    let mut sizes: Vec<u64> = Vec::new();
    let mut i: usize = 0;
    while i < len
        invariant
            book@ == b0,
            level == b0.subrange(0, len as int),
            n == b0.len(),
            0 <= i <= len <= n,
            sizes@ == quantities(level).subrange(0, i as int),
        decreases len - i,
    {
        sizes.push(book[i].quantity);
        i = i + 1;
        assert(sizes@ =~= quantities(level).subrange(0, i as int));
    }
    assert(sizes@ =~= quantities(level));
    if len == 0 {
        proof {
            assert(size_total(quantities(level)) == 0);
            assert(b0.subrange(0, b0.len() as int) =~= b0);
            assert(pro_rata_rest(level, 0, 0) =~= Seq::<Order>::empty());
            assert(trades@.subrange(start, start) =~= Seq::<Trade>::empty());
        }
        return qty;
    }
    let total = sum_sizes(&sizes);
    let q: u64 = if (qty as u128) < total {
        qty
    } else {
        total as u64
    };
    proof {
        assert forall|j: int| 0 <= j < sizes@.len() implies #[trigger] sizes@[j] > 0 by {
            assert(sizes@[j] == b0[j].quantity);
            assert(b0[j].side == opposite(side));
        }
        lemma_size_sum_prefix(sizes@, 1);
    }
    let allocs = allocate(&sizes, q);
    let ghost sz = sizes@;
    let ghost all = pro_rata_fills(level, q as nat, 0);
    let ghost kept = pro_rata_rest(level, q as nat, 0);
    proof {
        lemma_allocation(sz, q as nat);
    }
    let mut out: VecDeque<Order> = VecDeque::new();
    let ghost mut done: Seq<Fill> = seq![];
    let mut j: usize = 0;
    while j < len
        invariant
            book@ == b0,
            level == b0.subrange(0, len as int),
            sz == quantities(level),
            allocs@.len() == len,
            forall|k: int| 0 <= k < len ==> allocs@[k] == allocation(sz, q as nat, k),
            forall|k: int| 0 <= k < len ==> #[trigger] allocation(sz, q as nat, k) <= sz[k],
            allocation_sum(sz, q as nat, len as int) == q,
            q <= qty,
            0 <= j <= len <= n,
            n == b0.len(),
            done + pro_rata_fills(level, q as nat, j as int) == all,
            out@ + pro_rata_rest(level, q as nat, j as int) == kept,
            done.len() <= allocation_sum(sz, q as nat, j as int),
            trades@.len() == start + done.len(),
            trades@.subrange(0, start) == old(trades)@,
            start == old(trades)@.len(),
            forall|k: int|
                0 <= k < done.len() ==> trade_is(#[trigger] trades@[start + k], side, taker, done[k])
                    && trades@[start + k].rank == r0 + k + 1,
            ranks@ == r0 + done.len(),
            r0 + qty <= u64::MAX,
        decreases len - j,
    {
        let o = book[j];
        let a = allocs[j];
        let ghost tr = trades@;
        let ghost fl = pro_rata_fills(level, q as nat, j as int + 1);
        let ghost kl = pro_rata_rest(level, q as nat, j as int + 1);
        assert(level[j as int] == o);
        proof {
            lemma_allocation_sum_prefix(sz, q as nat, j + 1);
        }
        if a > 0 {
            let t = match side {
                Side::Buy => Trade::new(taker, o.id, o.price, a, ranks),
                Side::Sell => Trade::new(o.id, taker, o.price, a, ranks),
            };
            trades.push(t);
            let ghost f = Fill { maker_id: o.id, price: o.price, quantity: a };
            proof {
                assert(done.push(f) + fl =~= done + (seq![f] + fl));
                done = done.push(f);
                assert forall|k: int|
                    0 <= k < done.len() implies trade_is(
                    #[trigger] trades@[start + k],
                    side,
                    taker,
                    done[k],
                ) && trades@[start + k].rank == r0 + k + 1 by {
                    if k < done.len() - 1 {
                        assert(trades@[start + k] == tr[start + k]);
                    }
                }
            }
        }
        if a < o.quantity {
            let ghost ob = out@;
            out.push_back(Order { quantity: o.quantity - a, ..o });
            assert(ob.push(Order { quantity: (o.quantity - a) as u64, ..o }) + kl =~= ob + (seq![
                Order { quantity: (o.quantity - a) as u64, ..o },
            ] + kl));
        }
        j = j + 1;
    }
    proof {
        assert(done + Seq::<Fill>::empty() =~= done);
        assert(out@ + Seq::<Order>::empty() =~= out@);
        lemma_pro_rata_rest_shape(level, q as nat, 0, price, opposite(side));
    }
    while j < n
        invariant
            book@ == b0,
            n == b0.len(),
            len <= j <= n,
            out@ == kept + b0.subrange(len as int, j as int),
        decreases n - j,
    {
        out.push_back(book[j]);
        j = j + 1;
        assert(out@ =~= kept + b0.subrange(len as int, j as int));
    }
    proof {
        let ts = trades@.subrange(start, trades@.len() as int);
        assert forall|k: int| 0 <= k < ts.len() implies trade_is(
            #[trigger] ts[k],
            side,
            taker,
            all[k],
        ) && ts[k].rank == r0 + k + 1 by {
            assert(ts[k] == trades@[start + k]);
        }
        let r = out@;
        let os = opposite(side);
        assert forall|x: int, y: int| 0 <= x < y < r.len() implies at_least_as_good(
            os,
            #[trigger] r[x].price,
            #[trigger] r[y].price,
        ) by {
            if y >= kept.len() {
                assert(r[y] == b0[len + y - kept.len()]);
                if x >= kept.len() {
                    assert(r[x] == b0[len + x - kept.len()]);
                } else {
                    assert(r[x] == kept[x]);
                    assert(b0[0].price == price);
                    assert(at_least_as_good(os, b0[0].price, b0[len + y - kept.len()].price));
                }
            } else {
                assert(r[x] == kept[x]);
                assert(r[y] == kept[y]);
            }
        }
        assert forall|x: int| 0 <= x < r.len() implies #[trigger] r[x].side == os && r[x].price > 0
            && r[x].quantity > 0 by {
            if x >= kept.len() {
                assert(r[x] == b0[len + x - kept.len()]);
            } else {
                assert(r[x] == kept[x]);
                assert(b0[0].price == price);
            }
        }
    }
    *book = out;
    qty - q
}

proof fn lemma_level_prices(book: Seq<Order>, price: u64)
    ensures
        level_len(book, price) <= book.len(),
        forall|j: int| 0 <= j < level_len(book, price) ==> #[trigger] book[j].price == price,
    decreases book.len(),
{
    if book.len() > 0 && book[0].price == price {
        let t = book.drop_first();
        lemma_level_prices(t, price);
        assert forall|j: int| 0 < j < level_len(book, price) implies #[trigger] book[j].price
            == price by {
            assert(book[j] == t[j - 1]);
        }
    }
}

proof fn lemma_pro_rata_suffix(level: Seq<Order>, q: nat, i: int)
    requires
        0 <= i <= level.len(),
        forall|k: int| 0 <= k < level.len() ==> #[trigger] allocation(quantities(level), q, k) <= level[k].quantity,
    ensures
        fills_total(pro_rata_fills(level, q, i)) + allocation_sum(quantities(level), q, i)
            == allocation_sum(quantities(level), q, level.len() as int),
        total_quantity(pro_rata_rest(level, q, i)) + fills_total(pro_rata_fills(level, q, i))
            == total_quantity(level.subrange(i, level.len() as int)),
    decreases level.len() - i,
{
    let n = level.len() as int;
    if i < n {
        lemma_pro_rata_suffix(level, q, i + 1);
        let a = allocation(quantities(level), q, i);
        let fl = pro_rata_fills(level, q, i + 1);
        let kl = pro_rata_rest(level, q, i + 1);
        assert(a <= level[i].quantity);
        assert(level.subrange(i, n).drop_first() =~= level.subrange(i + 1, n));
        if a > 0 {
            let f = Fill { maker_id: level[i].id, price: level[i].price, quantity: a as u64 };
            assert((seq![f] + fl).drop_first() =~= fl);
        }
        if a < level[i].quantity {
            let o = Order { quantity: (level[i].quantity - a) as u64, ..level[i] };
            assert((seq![o] + kl).drop_first() =~= kl);
        }
    } else {
        assert(level.subrange(i, n) =~= Seq::<Order>::empty());
    }
}

proof fn lemma_pro_rata_fills_shape(level: Seq<Order>, q: nat, i: int, price: u64)
    requires
        0 <= i <= level.len(),
        forall|k: int| 0 <= k < level.len() ==> (#[trigger] level[k]).price == price,
        forall|k: int| 0 <= k < level.len() ==> #[trigger] allocation(quantities(level), q, k) <= level[k].quantity,
    ensures
        forall|m: int|
            0 <= m < pro_rata_fills(level, q, i).len() ==> (#[trigger] pro_rata_fills(level, q, i)[m]).price
                == price && pro_rata_fills(level, q, i)[m].quantity > 0,
    decreases level.len() - i,
{
    if i < level.len() {
        lemma_pro_rata_fills_shape(level, q, i + 1, price);
        let a = allocation(quantities(level), q, i);
        let fl = pro_rata_fills(level, q, i + 1);
        assert(a <= level[i].quantity);
        if a > 0 {
            let f = Fill { maker_id: level[i].id, price: level[i].price, quantity: a as u64 };
            assert forall|m: int| 0 < m < (seq![f] + fl).len() implies #[trigger] (seq![f] + fl)[m]
                == fl[m - 1] by {}
        }
    }
}

/// Conservation and the price rule of a pro-rata match of up to `qty` units
/// against the run of `book` priced `price`: exactly the match quantity is
/// filled, no more than `qty`; the side loses exactly what was filled; every
/// fill is at `price` and for a positive quantity.
pub proof fn lemma_pro_rata_conservation(book: Seq<Order>, price: u64, qty: nat)
    requires
        forall|i: int| 0 <= i < book.len() ==> #[trigger] book[i].quantity > 0,
    ensures
        ({
            let level = level_of(book, price);
            let q = match_quantity(level, qty);
            let fills = pro_rata_fills(level, q, 0);
            &&& q <= qty
            &&& fills_total(fills) == q
            &&& total_quantity(book) == total_quantity(
                pro_rata_rest(level, q, 0) + book.subrange(level.len() as int, book.len() as int),
            ) + fills_total(fills)
            &&& forall|k: int| 0 <= k < fills.len() ==> (#[trigger] fills[k]).price == price
                && fills[k].quantity > 0
        }),
{
    lemma_level_prices(book, price);
    let level = level_of(book, price);
    let n = level.len() as int;
    let s = quantities(level);
    let q = match_quantity(level, qty);
    assert(book =~= level + book.subrange(n, book.len() as int));
    lemma_total_quantity_append(level, book.subrange(n, book.len() as int));
    lemma_total_quantity_append(pro_rata_rest(level, q, 0), book.subrange(n, book.len() as int));
    assert(level.subrange(0, n) =~= level);
    if n == 0 {
        assert(pro_rata_rest(level, q, 0) =~= Seq::<Order>::empty());
        assert(pro_rata_fills(level, q, 0) =~= Seq::<Fill>::empty());
    } else {
        assert forall|i: int| 0 <= i < s.len() implies s[i] > 0 by {
            assert(s[i] == book[i].quantity);
        }
        lemma_size_sum_prefix(s, 1);
        lemma_allocation(s, q);
        lemma_pro_rata_suffix(level, q, 0);
        lemma_pro_rata_fills_shape(level, q, 0, price);
    }
}

/// After a pro-rata match at `price`, the side's head is priced no better
/// than its head before.
pub proof fn lemma_level_rest_head(book: Seq<Order>, side: Side, price: u64, q: nat)
    requires
        side_wf(book, side),
        book.len() > 0,
    ensures
        ({
            let level = level_of(book, price);
            let after = pro_rata_rest(level, q, 0) + book.subrange(level.len() as int, book.len() as int);
            after.len() > 0 ==> at_least_as_good(side, book[0].price, after[0].price)
        }),
{
    lemma_level_prices(book, price);
    let level = level_of(book, price);
    let n = level.len() as int;
    let kept = pro_rata_rest(level, q, 0);
    let after = kept + book.subrange(n, book.len() as int);
    assert forall|k: int| 0 <= k < level.len() implies (#[trigger] level[k]).price == price
        && level[k].side == side && level[k].quantity > 0 by {
        assert(level[k] == book[k]);
    }
    lemma_pro_rata_rest_shape(level, q, 0, price, side);
    if after.len() > 0 {
        if kept.len() > 0 {
            assert(after[0] == kept[0]);
            assert(book[0].price == price);
        } else {
            assert(after[0] == book[n]);
            if n > 0 {
                assert(at_least_as_good(side, book[0].price, book[n].price));
            }
        }
    }
}

/// A book that shares each match over the best opposite price level in
/// proportion to resting size, never reaching past that level.
pub struct ProRataMatcher {
    pub bids: VecDeque<Order>,
    pub asks: VecDeque<Order>,
}

/// True when an aggressor on `side` priced `price` reaches the head of the
/// opposite side `opp`.
pub open spec fn reaches_best(opp: Seq<Order>, side: Side, price: u64) -> bool {
    opp.len() > 0 && crosses(side, price, opp[0].price)
}

impl ProRataMatcher {
    /// Both sides in price-time priority.
    pub open spec fn wf(&self) -> bool {
        &&& side_wf(self.bids@, Side::Buy)
        &&& side_wf(self.asks@, Side::Sell)
    }

    /// The side that orders on `side` rest on.
    pub open spec fn side_of(&self, side: Side) -> Seq<Order> {
        match side {
            Side::Buy => self.bids@,
            Side::Sell => self.asks@,
        }
    }

    /// What a submission of `incoming` does: from this book with `ranked`
    /// ranks issued, it returns `r` and leaves the book `after` with
    /// `ranked_after` ranks issued.
    pub open spec fn outcome(
        &self,
        after: &ProRataMatcher,
        incoming: Order,
        r: Seq<Trade>,
        ranked: nat,
        ranked_after: nat,
    ) -> bool {
        let side = incoming.side;
        let own = self.side_of(side);
        let opp = self.side_of(opposite(side));
        let qty = incoming.quantity as nat;
        if incoming.quantity == 0 || incoming.price == 0 {
            &&& r.len() == 0
            &&& *after == *self
            &&& ranked_after == ranked
        } else if !reaches_best(opp, side, incoming.price) {
            &&& r.len() == 0
            &&& after.side_of(opposite(side)) == opp
            &&& after.side_of(side) == rest(own, incoming)
            &&& ranked_after == ranked
        } else {
            let level = level_of(opp, opp[0].price);
            let q = match_quantity(level, qty);
            let fills = pro_rata_fills(level, q, 0);
            &&& records(r, side, incoming.id, fills, ranked)
            &&& after.side_of(opposite(side)) == pro_rata_rest(level, q, 0) + opp.subrange(
                level.len() as int,
                opp.len() as int,
            )
            &&& after.side_of(side) == if q < qty {
                rest(own, Order { quantity: (qty - q) as u64, ..incoming })
            } else {
                own
            }
            &&& ranked_after == ranked + fills.len()
        }
    }

    pub fn new() -> (r: ProRataMatcher)
        ensures
            r.wf(),
            r.bids@.len() == 0,
            r.asks@.len() == 0,
    {
        ProRataMatcher { bids: VecDeque::new(), asks: VecDeque::new() }
    }

    /// The best resting bid, if any.
    pub fn best_bid(&self) -> (r: Option<&Order>)
        ensures
            match r {
                Some(o) => self.bids@.len() > 0 && *o == self.bids@[0],
                None => self.bids@.len() == 0,
            },
    {
        if self.bids.len() == 0 {
            None
        } else {
            Some(&self.bids[0])
        }
    }

    /// The best resting ask, if any.
    pub fn best_ask(&self) -> (r: Option<&Order>)
        ensures
            match r {
                Some(o) => self.asks@.len() > 0 && *o == self.asks@[0],
                None => self.asks@.len() == 0,
            },
    {
        if self.asks.len() == 0 {
            None
        } else {
            Some(&self.asks[0])
        }
    }

    /// The number of resting bids.
    pub fn bid_depth(&self) -> (r: usize)
        ensures
            r == self.bids@.len(),
    {
        self.bids.len()
    }

    /// The number of resting asks.
    pub fn ask_depth(&self) -> (r: usize)
        ensures
            r == self.asks@.len(),
    {
        self.asks.len()
    }

    /// Drops every resting order.
    pub fn clear(&mut self)
        ensures
            final(self).bids@.len() == 0,
            final(self).asks@.len() == 0,
            final(self).wf(),
    {
        self.bids.clear();
        self.asks.clear();
    }

    /// True when neither side holds an order.
    pub fn is_empty(&self) -> (r: bool)
        ensures
            r == (self.bids@.len() == 0 && self.asks@.len() == 0),
    {
        self.bids.len() == 0 && self.asks.len() == 0
    }

    /// The resting bids, best first.
    pub fn bids_iter(&self) -> (r: Vec<Order>)
        ensures
            r@ == self.bids@,
    {
        snapshot(&self.bids)
    }

    /// The resting asks, best first.
    pub fn asks_iter(&self) -> (r: Vec<Order>)
        ensures
            r@ == self.asks@,
    {
        snapshot(&self.asks)
    }

    /// Matches `incoming` against the best opposite price level only, sharing
    /// it in proportion to resting size, and rests any remainder on its own
    /// side.  An order with zero quantity or zero price produces no trades
    /// and changes nothing.
    pub fn match_order(&mut self, incoming: Order, ranks: &mut TradeRanks) -> (r: Vec<Trade>)
        requires
            old(self).wf(),
            old(ranks).has_room(incoming.quantity as nat),
        ensures
            final(self).wf(),
            old(self).outcome(final(self), incoming, r@, old(ranks)@, final(ranks)@),
            uncrossed(old(self).bids@, old(self).asks@) && !reaches_best(
                final(self).side_of(opposite(incoming.side)),
                incoming.side,
                incoming.price,
            ) ==> uncrossed(final(self).bids@, final(self).asks@),
    {
        let mut trades: Vec<Trade> = Vec::new();
        if incoming.quantity == 0 || incoming.price == 0 {
            return trades;
        }
        let mut rested = incoming;
        let ghost bids0 = self.bids@;
        let ghost asks0 = self.asks@;
        match incoming.side {
            Side::Buy => {
                if self.asks.len() == 0 || !crosses_exec(Side::Buy, incoming.price, self.asks[0].price) {
                    rest_order(&mut self.bids, incoming);
                    proof {
                        if uncrossed(bids0, asks0) {
                            lemma_rest_keeps_uncrossed(
                                Side::Buy,
                                bids0,
                                asks0,
                                self.bids@,
                                self.asks@,
                                incoming,
                                true,
                            );
                        }
                    }
                    return trades;
                }
                let best = self.asks[0].price;
                let left = match_level(
                    &mut self.asks,
                    Side::Buy,
                    incoming.id,
                    best,
                    incoming.quantity,
                    &mut trades,
                    ranks,
                );
                if left > 0 {
                    rested.quantity = left;
                    rest_order(&mut self.bids, rested);
                }
                proof {
                    lemma_level_rest_head(
                        asks0,
                        opposite(Side::Buy),
                        best,
                        match_quantity(level_of(asks0, best), incoming.quantity as nat),
                    );
                    if uncrossed(bids0, asks0) && !reaches_best(self.asks@, Side::Buy, incoming.price) {
                        lemma_rest_keeps_uncrossed(
                            Side::Buy,
                            bids0,
                            asks0,
                            self.bids@,
                            self.asks@,
                            rested,
                            left > 0,
                        );
                    }
                }
            },
            Side::Sell => {
                if self.bids.len() == 0 || !crosses_exec(Side::Sell, incoming.price, self.bids[0].price) {
                    rest_order(&mut self.asks, incoming);
                    proof {
                        if uncrossed(bids0, asks0) {
                            lemma_rest_keeps_uncrossed(
                                Side::Sell,
                                asks0,
                                bids0,
                                self.asks@,
                                self.bids@,
                                incoming,
                                true,
                            );
                        }
                    }
                    return trades;
                }
                let best = self.bids[0].price;
                let left = match_level(
                    &mut self.bids,
                    Side::Sell,
                    incoming.id,
                    best,
                    incoming.quantity,
                    &mut trades,
                    ranks,
                );
                if left > 0 {
                    rested.quantity = left;
                    rest_order(&mut self.asks, rested);
                }
                proof {
                    lemma_level_rest_head(
                        bids0,
                        opposite(Side::Sell),
                        best,
                        match_quantity(level_of(bids0, best), incoming.quantity as nat),
                    );
                    if uncrossed(bids0, asks0) && !reaches_best(self.bids@, Side::Sell, incoming.price) {
                        lemma_rest_keeps_uncrossed(
                            Side::Sell,
                            asks0,
                            bids0,
                            self.asks@,
                            self.bids@,
                            rested,
                            left > 0,
                        );
                    }
                }
            },
        }
        proof {
            assert(trades@.subrange(0, trades@.len() as int) =~= trades@);
        }
        trades
    }
}

impl Default for ProRataMatcher {
    fn default() -> (r: ProRataMatcher)
        ensures
            r.wf(),
            r.bids@.len() == 0,
            r.asks@.len() == 0,
    {
        ProRataMatcher::new()
    }
}

} // verus!
