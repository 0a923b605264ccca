//! Read-only summaries of a ladder: order counts, copies and aggregated
//! depth.

use vstd::prelude::*;

use crate::order::Order;
use crate::order_book::{ladder_view, LevelView, PriceLevel};

verus! {

/// The number of resting orders of a ladder.
pub open spec fn order_count(levels: Seq<LevelView>) -> int
    decreases levels.len(),
{
    if levels.len() == 0 {
        0
    } else {
        levels[0].orders.len() + order_count(levels.drop_first())
    }
}

/// The total quantity resting in a level.
pub open spec fn level_quantity(orders: Seq<Order>) -> int
    decreases orders.len(),
{
    if orders.len() == 0 {
        0
    } else {
        orders[0].quantity + level_quantity(orders.drop_first())
    }
}

proof fn lemma_order_count_step(levels: Seq<LevelView>, i: int)
    requires
        0 <= i < levels.len(),
    ensures
        order_count(levels.subrange(0, i + 1)) == order_count(levels.subrange(0, i)) + levels[i].orders.len(),
    decreases i,
{
    let a = levels.subrange(0, i + 1);
    if i > 0 {
        lemma_order_count_step(levels.drop_first(), i - 1);
        assert(a.drop_first() =~= levels.drop_first().subrange(0, i));
        assert(levels.subrange(0, i).drop_first() =~= levels.drop_first().subrange(0, i - 1));
    } else {
        assert(a.drop_first() =~= Seq::<LevelView>::empty());
        assert(levels.subrange(0, 0) =~= Seq::<LevelView>::empty());
        reveal_with_fuel(order_count, 2);
    }
}

proof fn lemma_level_quantity_step(orders: Seq<Order>, i: int)
    requires
        0 <= i < orders.len(),
    ensures
        level_quantity(orders.subrange(0, i + 1)) == level_quantity(orders.subrange(0, i)) + orders[i].quantity,
    decreases i,
{
    let a = orders.subrange(0, i + 1);
    if i > 0 {
        lemma_level_quantity_step(orders.drop_first(), i - 1);
        assert(a.drop_first() =~= orders.drop_first().subrange(0, i));
        assert(orders.subrange(0, i).drop_first() =~= orders.drop_first().subrange(0, i - 1));
    } else {
        assert(a.drop_first() =~= Seq::<Order>::empty());
        assert(orders.subrange(0, 0) =~= Seq::<Order>::empty());
        reveal_with_fuel(level_quantity, 2);
    }
}

pub(crate) proof fn lemma_order_count_mono(levels: Seq<LevelView>, i: int)
    requires
        0 <= i <= levels.len(),
    ensures
        order_count(levels.subrange(0, i)) <= order_count(levels),
    decreases levels.len() - i,
{
    if i < levels.len() {
        lemma_order_count_step(levels, i);
        lemma_order_count_mono(levels, i + 1);
    } else {
        assert(levels.subrange(0, i) =~= levels);
    }
}

proof fn lemma_level_quantity_mono(orders: Seq<Order>, i: int)
    requires
        0 <= i <= orders.len(),
    ensures
        level_quantity(orders.subrange(0, i)) <= level_quantity(orders),
    decreases orders.len() - i,
{
    if i < orders.len() {
        lemma_level_quantity_step(orders, i);
        lemma_level_quantity_mono(orders, i + 1);
    } else {
        assert(orders.subrange(0, i) =~= orders);
    }
}

/// The number of resting orders of `ladder`.
pub(crate) fn count_orders(ladder: &Vec<PriceLevel>) -> (r: usize)
    requires
        order_count(ladder_view(ladder@)) <= usize::MAX,
    ensures
        r == order_count(ladder_view(ladder@)),
{
    let ghost lv = ladder_view(ladder@);
    let mut n: usize = 0;
    let mut i: usize = 0;
    while i < ladder.len()
        invariant
            i <= lv.len(),
            lv == ladder_view(ladder@),
            order_count(lv) <= usize::MAX,
            n == order_count(lv.subrange(0, i as int)),
        decreases lv.len() - i,
    {
        proof {
            lemma_order_count_step(lv, i as int);
            lemma_order_count_mono(lv, i + 1);
        }
        n = n + ladder[i].orders.len();
        i = i + 1;
    }
    assert(lv.subrange(0, i as int) =~= lv);
    n
}

/// The total quantity resting in `orders`.
fn sum_quantity(orders: &Vec<Order>) -> (r: u64)
    requires
        level_quantity(orders@) <= u64::MAX,
    ensures
        r == level_quantity(orders@),
{
    let mut n: u64 = 0;
    let mut i: usize = 0;
    while i < orders.len()
        invariant
            i <= orders@.len(),
            level_quantity(orders@) <= u64::MAX,
            n == level_quantity(orders@.subrange(0, i as int)),
        decreases orders@.len() - i,
    {
        proof {
            lemma_level_quantity_step(orders@, i as int);
            lemma_level_quantity_mono(orders@, i + 1);
        }
        n = n + orders[i].quantity;
        i = i + 1;
    }
    assert(orders@.subrange(0, i as int) =~= orders@);
    n
}

/// A copy of the orders.
fn copy_orders(orders: &Vec<Order>) -> (r: Vec<Order>)
    ensures
        r@ == orders@,
{
    let mut r: Vec<Order> = Vec::new();
    let mut i: usize = 0;
    while i < orders.len()
        invariant
            i <= orders@.len(),
            r@ == orders@.subrange(0, i as int),
        decreases orders@.len() - i,
    {
        r.push(orders[i]);
        i = i + 1;
        assert(r@ =~= orders@.subrange(0, i as int));
    }
    assert(orders@.subrange(0, i as int) =~= orders@);
    r
}

/// A copy of the first `depth` levels of `ladder`.
pub(crate) fn copy_levels(ladder: &Vec<PriceLevel>, depth: usize) -> (r: Vec<PriceLevel>)
    ensures
        ladder_view(r@) == ladder_view(ladder@).take(if depth < ladder@.len() { depth as int } else { ladder@.len() as int }),
{
    let n = if depth < ladder.len() { depth } else { ladder.len() };
    let mut r: Vec<PriceLevel> = Vec::new();
    let mut i: usize = 0;
    while i < n
        invariant
            i <= n <= ladder@.len(),
            r@.len() == i,
            ladder_view(r@) == ladder_view(ladder@).take(i as int),
        decreases n - i,
    {
        let orders = copy_orders(&ladder[i].orders);
        let level = PriceLevel { price: ladder[i].price, orders };
        assert(level@ == ladder@[i as int]@);
        let ghost r0 = r@;
        r.push(level);
        i = i + 1;
        assert forall|k: int| 0 <= k < i implies #[trigger] ladder_view(r@)[k] == ladder_view(ladder@).take(i as int)[k] by {
            if k < i - 1 {
                assert(ladder_view(r0)[k] == ladder_view(ladder@).take(i - 1)[k]);
                assert(r@[k] == r0[k]);
            }
        }
        assert(ladder_view(r@) =~= ladder_view(ladder@).take(i as int));
    }
    r
}

/// The levels of a ladder with their aggregated quantities.
pub open spec fn aggregated(levels: Seq<LevelView>) -> Seq<(u64, u64)> {
    Seq::new(levels.len(), |i: int| (levels[i].price, level_quantity(levels[i].orders) as u64))
}

/// Every level's aggregated quantity fits in 64 bits.
pub open spec fn quantities_fit(levels: Seq<LevelView>) -> bool {
    forall|i: int| 0 <= i < levels.len() ==> level_quantity(#[trigger] levels[i].orders) <= u64::MAX
}

/// The first `depth` levels of `ladder` as (price, aggregated quantity).
pub(crate) fn aggregate_levels(ladder: &Vec<PriceLevel>, depth: usize) -> (r: Vec<(u64, u64)>)
    requires
        quantities_fit(ladder_view(ladder@)),
    ensures
        r@ == aggregated(ladder_view(ladder@)).take(if depth < ladder@.len() { depth as int } else { ladder@.len() as int }),
{
    let ghost lv = ladder_view(ladder@);
    let n = if depth < ladder.len() { depth } else { ladder.len() };
    let mut r: Vec<(u64, u64)> = Vec::new();
    let mut i: usize = 0;
    while i < n
        invariant
            i <= n <= ladder@.len(),
            lv == ladder_view(ladder@),
            quantities_fit(lv),
            r@ == aggregated(lv).take(i as int),
        decreases n - i,
    {
        assert(level_quantity(lv[i as int].orders) <= u64::MAX);
        let q = sum_quantity(&ladder[i].orders);
        r.push((ladder[i].price, q));
        i = i + 1;
        assert(r@ =~= aggregated(lv).take(i as int));
    }
    r
}


/// Whether the total quantity of `orders` fits in 64 bits.
fn level_fits(orders: &Vec<Order>) -> (r: bool)
    ensures
        r == (level_quantity(orders@) <= u64::MAX),
{
    let mut n: u64 = 0;
    let mut i: usize = 0;
    while i < orders.len()
        invariant
            i <= orders@.len(),
            n == level_quantity(orders@.subrange(0, i as int)),
        decreases orders@.len() - i,
    {
        proof {
            lemma_level_quantity_step(orders@, i as int);
        }
        if orders[i].quantity > u64::MAX - n {
            proof {
                lemma_level_quantity_mono(orders@, i + 1);
            }
            return false;
        }
        n = n + orders[i].quantity;
        i = i + 1;
    }
    assert(orders@.subrange(0, i as int) =~= orders@);
    true
}

/// Whether every level's aggregated quantity of `ladder` fits in 64 bits.
pub(crate) fn ladder_fits(ladder: &Vec<PriceLevel>) -> (r: bool)
    ensures
        r == quantities_fit(ladder_view(ladder@)),
{
    let ghost lv = ladder_view(ladder@);
    let mut i: usize = 0;
    while i < ladder.len()
        invariant
            i <= lv.len(),
            lv == ladder_view(ladder@),
            forall|k: int| 0 <= k < i ==> level_quantity(#[trigger] lv[k].orders) <= u64::MAX,
        decreases lv.len() - i,
    {
        if !level_fits(&ladder[i].orders) {
            assert(level_quantity(lv[i as int].orders) > u64::MAX);
            return false;
        }
        i = i + 1;
    }
    true
}

} // verus!
