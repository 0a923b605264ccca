//! The order book: two price ladders and price-time priority matching.

use vstd::prelude::*;

use crate::journal::{CancelReason, Command, Event, JournalEvent, RejectReason};
use crate::depth::{aggregate_levels, aggregated, copy_levels, count_orders, ladder_fits, lemma_order_count_mono, order_count, quantities_fit};
use crate::order::{Order, OrderType, Side, Trade};

verus! {

/// The resting orders at one exact price, oldest first.
pub struct PriceLevel {
    pub price: u64,
    pub orders: Vec<Order>,
}

/// What a price level holds.
pub struct LevelView {
    pub price: u64,
    pub orders: Seq<Order>,
}

impl View for PriceLevel {
    type V = LevelView;

    open spec fn view(&self) -> LevelView {
        LevelView { price: self.price, orders: self.orders@ }
    }
}

/// The levels of a ladder, in priority order.
pub open spec fn ladder_view(v: Seq<PriceLevel>) -> Seq<LevelView> {
    Seq::new(v.len(), |i: int| v[i]@)
}

/// Price `a` comes before price `b` on the ladder of `side`: bids are kept
/// highest first, asks lowest first.
pub open spec fn better(side: Side, a: u64, b: u64) -> bool {
    if side == Side::Buy {
        a > b
    } else {
        a < b
    }
}

/// The incoming order may trade at a level of the other side with price `p`.
pub open spec fn crosses(taker: Order, p: u64) -> bool {
    taker.order_type == OrderType::Market || (taker.side == Side::Buy && taker.price >= p) || (
    taker.side == Side::Sell && taker.price <= p)
}

/// The trade between the incoming order and a maker at price `p`.
pub open spec fn trade_of(taker: Order, maker_id: u64, p: u64, qty: u64, now: u64) -> Trade {
    if taker.side == Side::Buy {
        Trade { buy_order_id: taker.id, sell_order_id: maker_id, price: p, quantity: qty, timestamp: now }
    } else {
        Trade { buy_order_id: maker_id, sell_order_id: taker.id, price: p, quantity: qty, timestamp: now }
    }
}

/// The order with another quantity.
pub open spec fn with_quantity(o: Order, q: u64) -> Order {
    Order { quantity: q, ..o }
}

/// Matching the incoming order, with `rem` lots left, against the makers of
/// one level at price `p`, oldest first: the makers that remain, the trades,
/// and what is left of the incoming order.
pub open spec fn fill(taker: Order, p: u64, makers: Seq<Order>, rem: u64, now: u64) -> (
    Seq<Order>,
    Seq<Trade>,
    u64,
)
    decreases makers.len(),
{
    if makers.len() == 0 || rem == 0 {
        (makers, seq![], rem)
    } else if makers[0].quantity <= rem {
        let r = fill(taker, p, makers.drop_first(), (rem - makers[0].quantity) as u64, now);
        (r.0, seq![trade_of(taker, makers[0].id, p, makers[0].quantity, now)] + r.1, r.2)
    } else {
        (
            makers.update(0, with_quantity(makers[0], (makers[0].quantity - rem) as u64)),
            seq![trade_of(taker, makers[0].id, p, rem, now)],
            0,
        )
    }
}

/// Matching the incoming order, with `rem` lots left, against a ladder of
/// the other side in priority order: the levels that remain, the trades, and
/// what is left of the incoming order.
pub open spec fn sweep(taker: Order, levels: Seq<LevelView>, rem: u64, now: u64) -> (
    Seq<LevelView>,
    Seq<Trade>,
    u64,
)
    decreases levels.len(),
{
    if levels.len() == 0 || rem == 0 || !crosses(taker, levels[0].price) {
        (levels, seq![], rem)
    } else {
        let f = fill(taker, levels[0].price, levels[0].orders, rem, now);
        if f.0.len() == 0 {
            let s = sweep(taker, levels.drop_first(), f.2, now);
            (s.0, f.1 + s.1, s.2)
        } else {
            (levels.update(0, LevelView { price: levels[0].price, orders: f.0 }), f.1, f.2)
        }
    }
}

proof fn lemma_fill_rest_empty_or_done(taker: Order, p: u64, makers: Seq<Order>, rem: u64, now: u64)
    ensures
        fill(taker, p, makers, rem, now).0.len() > 0 ==> fill(taker, p, makers, rem, now).2 == 0,
    decreases makers.len(),
{
    if makers.len() > 0 && rem > 0 && makers[0].quantity <= rem {
        lemma_fill_rest_empty_or_done(taker, p, makers.drop_first(), (rem - makers[0].quantity) as u64, now);
    }
}

/// Matches against the makers of `level`, appending the trades.
fn fill_level(taker: &Order, level: &mut PriceLevel, rem: u64, now: u64, trades: &mut Vec<Trade>) -> (r: u64)
    ensures
        final(level).price == old(level).price,
        final(level).orders@ == fill(*taker, old(level).price, old(level).orders@, rem, now).0,
        final(trades)@ == old(trades)@ + fill(*taker, old(level).price, old(level).orders@, rem, now).1,
        r == fill(*taker, old(level).price, old(level).orders@, rem, now).2,
{
    let ghost f0 = fill(*taker, level.price, level.orders@, rem, now);
    let ghost t0 = trades@;
    let ghost mut done: Seq<Trade> = seq![];
    let mut rem = rem;
    while level.orders.len() > 0 && rem > 0
        invariant
            level.price == old(level).price,
            trades@ == t0 + done,
            f0.0 == fill(*taker, level.price, level.orders@, rem, now).0,
            f0.1 == done + fill(*taker, level.price, level.orders@, rem, now).1,
            f0.2 == fill(*taker, level.price, level.orders@, rem, now).2,
        decreases 2 * level.orders@.len() + (if rem > 0 { 1int } else { 0int }),
    {
        let m = level.orders[0];
        let ghost before = level.orders@;
        if m.quantity <= rem {
            let t = if taker.side == Side::Buy {
                Trade { buy_order_id: taker.id, sell_order_id: m.id, price: level.price, quantity: m.quantity, timestamp: now }
            } else {
                Trade { buy_order_id: m.id, sell_order_id: taker.id, price: level.price, quantity: m.quantity, timestamp: now }
            };
            level.orders.remove(0);
            trades.push(t);
            proof {
                assert(level.orders@ =~= before.drop_first());
                let nx = fill(*taker, level.price, level.orders@, (rem - m.quantity) as u64, now);
                assert(done + fill(*taker, level.price, before, rem, now).1 =~= done.push(t) + nx.1);
                done = done.push(t);
            }
            rem = rem - m.quantity;
        } else {
            let t = if taker.side == Side::Buy {
                Trade { buy_order_id: taker.id, sell_order_id: m.id, price: level.price, quantity: rem, timestamp: now }
            } else {
                Trade { buy_order_id: m.id, sell_order_id: taker.id, price: level.price, quantity: rem, timestamp: now }
            };
            let mut m2 = m;
            m2.quantity = m.quantity - rem;
            level.orders.set(0, m2);
            trades.push(t);
            proof {
                assert(level.orders@ =~= before.update(0, with_quantity(before[0], (before[0].quantity - rem) as u64)));
                assert(done + fill(*taker, level.price, before, rem, now).1 =~= done.push(t) + seq![]);
                done = done.push(t);
            }
            rem = 0;
        }
    }
    proof {
        assert(done + seq![] =~= done);
    }
    rem
}

/// Whether the incoming order may trade at price `p`.
fn crosses_at(taker: &Order, p: u64) -> (r: bool)
    ensures
        r == crosses(*taker, p),
{
    match taker.order_type {
        OrderType::Market => true,
        OrderType::Limit => match taker.side {
            Side::Buy => taker.price >= p,
            Side::Sell => taker.price <= p,
        },
    }
}

/// Matches against `ladder` in priority order, appending the trades and
/// pruning the levels that were emptied.
fn sweep_ladder(taker: &Order, ladder: &mut Vec<PriceLevel>, rem: u64, now: u64, trades: &mut Vec<Trade>) -> (r: u64)
    ensures
        ladder_view(final(ladder)@) == sweep(*taker, ladder_view(old(ladder)@), rem, now).0,
        final(trades)@ == old(trades)@ + sweep(*taker, ladder_view(old(ladder)@), rem, now).1,
        r == sweep(*taker, ladder_view(old(ladder)@), rem, now).2,
{
    let ghost s0 = sweep(*taker, ladder_view(ladder@), rem, now);
    let ghost t0 = trades@;
    let ghost mut done: Seq<Trade> = seq![];
    let mut rem = rem;
    while ladder.len() > 0 && rem > 0 && crosses_at(taker, ladder[0].price)
        invariant
            trades@ == t0 + done,
            s0.0 == sweep(*taker, ladder_view(ladder@), rem, now).0,
            s0.1 == done + sweep(*taker, ladder_view(ladder@), rem, now).1,
            s0.2 == sweep(*taker, ladder_view(ladder@), rem, now).2,
        decreases 2 * ladder@.len() + (if rem > 0 { 1int } else { 0int }),
    {
        let ghost before = ladder_view(ladder@);
        let ghost r0 = rem;
        let ghost d0 = done;
        let mut level = ladder.remove(0);
        let ghost lv = level@;
        assert(lv == before[0]);
        let r1 = fill_level(taker, &mut level, rem, now, trades);
        let ghost f = fill(*taker, lv.price, lv.orders, r0, now);
        proof {
            lemma_fill_rest_empty_or_done(*taker, lv.price, lv.orders, r0, now);
        }
        rem = r1;
        if level.orders.len() > 0 {
            ladder.insert(0, level);
            proof {
                assert(ladder_view(ladder@) =~= before.update(0, LevelView { price: lv.price, orders: f.0 }));
                assert(d0 + f.1 + seq![] =~= d0 + f.1);
                assert(t0 + d0 + f.1 =~= t0 + (d0 + f.1));
                done = d0 + f.1;
            }
        } else {
            proof {
                assert(ladder_view(ladder@) =~= before.drop_first());
                let sn = sweep(*taker, before.drop_first(), f.2, now);
                assert(d0 + (f.1 + sn.1) =~= (d0 + f.1) + sn.1);
                assert(t0 + d0 + f.1 =~= t0 + (d0 + f.1));
                done = d0 + f.1;
            }
        }
    }
    proof {
        assert(done + seq![] =~= done);
    }
    rem
}

/// A level that holds only `o`.
pub open spec fn single_level(o: Order) -> LevelView {
    LevelView { price: o.price, orders: seq![o] }
}

/// The ladder of `side` with `o` rested at the back of the level for its
/// price, which is created in its place if there is none.
pub open spec fn rest_in(levels: Seq<LevelView>, side: Side, o: Order) -> Seq<LevelView>
    decreases levels.len(),
{
    if levels.len() == 0 {
        seq![single_level(o)]
    } else if better(side, levels[0].price, o.price) {
        seq![levels[0]] + rest_in(levels.drop_first(), side, o)
    } else if levels[0].price == o.price {
        levels.update(0, LevelView { price: o.price, orders: levels[0].orders.push(o) })
    } else {
        seq![single_level(o)] + levels
    }
}

/// `rest_in` at the first level `i` whose price does not come before the
/// order's price.
proof fn lemma_rest_in_at(levels: Seq<LevelView>, side: Side, o: Order, i: int)
    requires
        0 <= i <= levels.len(),
        forall|k: int| 0 <= k < i ==> better(side, #[trigger] levels[k].price, o.price),
        i < levels.len() ==> !better(side, levels[i].price, o.price),
    ensures
        rest_in(levels, side, o) == (if i < levels.len() && levels[i].price == o.price {
            levels.update(i, LevelView { price: o.price, orders: levels[i].orders.push(o) })
        } else {
            levels.insert(i, single_level(o))
        }),
    decreases i,
{
    if i == 0 {
        if levels.len() == 0 {
            assert(levels.insert(0, single_level(o)) =~= seq![single_level(o)]);
        } else if levels[0].price != o.price {
            assert(levels.insert(0, single_level(o)) =~= seq![single_level(o)] + levels);
        }
    } else {
        let tail = levels.drop_first();
        assert forall|k: int| 0 <= k < i - 1 implies better(side, #[trigger] tail[k].price, o.price) by {
            assert(tail[k] == levels[k + 1]);
        }
        lemma_rest_in_at(tail, side, o, i - 1);
        if i < levels.len() && levels[i].price == o.price {
            assert(seq![levels[0]] + tail.update(i - 1, LevelView { price: o.price, orders: tail[i - 1].orders.push(o) })
                =~= levels.update(i, LevelView { price: o.price, orders: levels[i].orders.push(o) }));
        } else {
            assert(seq![levels[0]] + tail.insert(i - 1, single_level(o)) =~= levels.insert(i, single_level(o)));
        }
    }
}

/// Whether price `a` comes before price `b` on the ladder of `side`.
fn better_at(side: Side, a: u64, b: u64) -> (r: bool)
    ensures
        r == better(side, a, b),
{
    match side {
        Side::Buy => a > b,
        Side::Sell => a < b,
    }
}

/// Rests `o` on `ladder`, the ladder of `side`.
fn rest_order(ladder: &mut Vec<PriceLevel>, side: Side, o: Order)
    ensures
        ladder_view(final(ladder)@) == rest_in(ladder_view(old(ladder)@), side, o),
{
    let ghost lv0 = ladder_view(ladder@);
    let mut i: usize = 0;
    while i < ladder.len() && better_at(side, ladder[i].price, o.price)
        invariant
            i <= ladder@.len(),
            lv0 == ladder_view(ladder@),
            forall|k: int| 0 <= k < i ==> better(side, #[trigger] lv0[k].price, o.price),
        decreases ladder@.len() - i,
    {
        i = i + 1;
    }
    proof {
        lemma_rest_in_at(lv0, side, o, i as int);
    }
    if i < ladder.len() && ladder[i].price == o.price {
        let mut level = ladder.remove(i);
        level.orders.push(o);
        ladder.insert(i, level);
        assert(ladder_view(ladder@) =~= lv0.update(i as int, LevelView { price: o.price, orders: lv0[i as int].orders.push(o) }));
    } else {
        let mut orders: Vec<Order> = Vec::new();
        orders.push(o);
        ladder.insert(i, PriceLevel { price: o.price, orders });
        assert(orders@ =~= seq![o]);
        assert(ladder_view(ladder@) =~= lv0.insert(i as int, single_level(o)));
    }
}

/// `i` is the first level of `levels` at price `p`.
pub open spec fn first_level(levels: Seq<LevelView>, p: u64, i: int) -> bool {
    0 <= i < levels.len() && levels[i].price == p && forall|k: int| 0 <= k < i ==> #[trigger] levels[k].price != p
}

/// `j` is the first order of `orders` with id `id`.
pub open spec fn first_order(orders: Seq<Order>, id: u64, j: int) -> bool {
    0 <= j < orders.len() && orders[j].id == id && forall|k: int| 0 <= k < j ==> #[trigger] orders[k].id != id
}

/// The coordinates (`p`, `id`) locate a resting order of `levels`.
pub open spec fn located(levels: Seq<LevelView>, p: u64, id: u64) -> bool {
    exists|i: int, j: int| first_level(levels, p, i) && first_order(levels[i].orders, id, j)
}

/// Where the coordinates locate the order.
pub open spec fn location(levels: Seq<LevelView>, p: u64, id: u64) -> (int, int) {
    choose|i: int, j: int| first_level(levels, p, i) && first_order(levels[i].orders, id, j)
}

/// The ladder without the located order, pruned of its level if that
/// level is left empty.
pub open spec fn without(levels: Seq<LevelView>, p: u64, id: u64) -> Seq<LevelView> {
    let (i, j) = location(levels, p, id);
    let rest = levels[i].orders.remove(j);
    if rest.len() == 0 {
        levels.remove(i)
    } else {
        levels.update(i, LevelView { price: p, orders: rest })
    }
}

/// The quantity that the located order has left.
pub open spec fn located_quantity(levels: Seq<LevelView>, p: u64, id: u64) -> u64 {
    let (i, j) = location(levels, p, id);
    levels[i].orders[j].quantity
}

/// Removes the order (`p`, `id`) from `ladder`, returning its remaining
/// quantity, or `None` if the coordinates locate no order.
fn remove_order(ladder: &mut Vec<PriceLevel>, p: u64, id: u64) -> (r: Option<u64>)
    ensures
        located(ladder_view(old(ladder)@), p, id) ==> r == Some(located_quantity(ladder_view(old(ladder)@), p, id))
            && ladder_view(final(ladder)@) == without(ladder_view(old(ladder)@), p, id),
        !located(ladder_view(old(ladder)@), p, id) ==> r is None && final(ladder)@ == old(ladder)@,
{
    let ghost lv0 = ladder_view(ladder@);
    let mut i: usize = 0;
    while i < ladder.len() && ladder[i].price != p
        invariant
            i <= ladder@.len(),
            lv0 == ladder_view(ladder@),
            forall|k: int| 0 <= k < i ==> #[trigger] lv0[k].price != p,
        decreases ladder@.len() - i,
    {
        i = i + 1;
    }
    if i == ladder.len() {
        assert(!located(lv0, p, id)) by {
            if located(lv0, p, id) {
                let (a, b) = choose|a: int, b: int| first_level(lv0, p, a) && first_order(lv0[a].orders, id, b);
                assert(lv0[a].price != p);
            }
        }
        return None;
    }
    assert(first_level(lv0, p, i as int));
    let mut j: usize = 0;
    while j < ladder[i].orders.len() && ladder[i].orders[j].id != id
        invariant
            i < ladder@.len(),
            j <= ladder@[i as int].orders@.len(),
            lv0 == ladder_view(ladder@),
            forall|k: int| 0 <= k < j ==> #[trigger] lv0[i as int].orders[k].id != id,
        decreases ladder@[i as int].orders@.len() - j,
    {
        j = j + 1;
    }
    if j == ladder[i].orders.len() {
        assert(!located(lv0, p, id)) by {
            if located(lv0, p, id) {
                let (a, b) = choose|a: int, b: int| first_level(lv0, p, a) && first_order(lv0[a].orders, id, b);
                if a < i {
                    assert(lv0[a].price != p);
                } else if a > i {
                    assert(lv0[i as int].price != p);
                }
                assert(lv0[a].orders[b].id != id);
            }
        }
        return None;
    }
    assert(first_order(lv0[i as int].orders, id, j as int));
    proof {
        let (a, b) = location(lv0, p, id);
        if a < i {
            assert(lv0[a].price != p);
        } else if a > i {
            assert(lv0[i as int].price != p);
        }
        if b < j {
            assert(lv0[i as int].orders[b].id != id);
        } else if b > j {
            assert(lv0[a].orders[j as int].id != id);
        }
    }
    let mut level = ladder.remove(i);
    let o = level.orders.remove(j);
    if level.orders.len() == 0 {
        assert(ladder_view(ladder@) =~= lv0.remove(i as int));
    } else {
        ladder.insert(i, level);
        assert(ladder_view(ladder@) =~= lv0.update(i as int, LevelView { price: p, orders: lv0[i as int].orders.remove(j as int) }));
    }
    Some(o.quantity)
}

/// Some resting order of `levels` has id `id`.
pub open spec fn has_id(levels: Seq<LevelView>, id: u64) -> bool {
    exists|i: int, j: int| 0 <= i < levels.len() && 0 <= j < levels[i].orders.len() && #[trigger] levels[i].orders[j].id == id
}

/// Whether `id` is one of `ids`.
fn contains_id(ids: &Vec<u64>, id: u64) -> (r: bool)
    ensures
        r == ids@.contains(id),
{
    let mut k: usize = 0;
    while k < ids.len()
        invariant
            k <= ids@.len(),
            forall|m: int| 0 <= m < k ==> ids@[m] != id,
        decreases ids@.len() - k,
    {
        if ids[k] == id {
            assert(ids@[k as int] == id);
            return true;
        }
        k = k + 1;
    }
    false
}

/// `new` is what matching leaves of the makers `old`: a suffix of them, the
/// first possibly with a smaller, still positive quantity.
pub open spec fn suffix_of(new: Seq<Order>, old: Seq<Order>) -> bool {
    &&& new.len() <= old.len()
    &&& forall|j: int| 0 <= j < new.len() ==> #[trigger] new[j] == with_quantity(old[j + old.len() - new.len()], new[j].quantity)
        && new[j].quantity > 0
}

/// `new` is what matching leaves of the ladder `old`: its last levels, each
/// holding what matching left of its orders.
pub open spec fn residue_of(new: Seq<LevelView>, old: Seq<LevelView>) -> bool {
    &&& new.len() <= old.len()
    &&& forall|i: int| 0 <= i < new.len() ==> #[trigger] new[i].price == old[i + old.len() - new.len()].price
        && suffix_of(new[i].orders, old[i + old.len() - new.len()].orders) && new[i].orders.len() > 0
}

/// Every level holds orders, each with a positive quantity.
pub open spec fn positive(levels: Seq<LevelView>) -> bool {
    forall|i: int| 0 <= i < levels.len() ==> #[trigger] levels[i].orders.len() > 0 && (forall|j: int|
        0 <= j < levels[i].orders.len() ==> #[trigger] levels[i].orders[j].quantity > 0)
}

proof fn lemma_suffix_self(s: Seq<Order>)
    requires
        forall|j: int| 0 <= j < s.len() ==> #[trigger] s[j].quantity > 0,
    ensures
        suffix_of(s, s),
{
    assert forall|j: int| 0 <= j < s.len() implies #[trigger] s[j] == with_quantity(s[j + s.len() - s.len()], s[j].quantity) by {
        assert(with_quantity(s[j], s[j].quantity) == s[j]);
    }
}

proof fn lemma_fill_suffix(taker: Order, p: u64, makers: Seq<Order>, rem: u64, now: u64)
    requires
        forall|j: int| 0 <= j < makers.len() ==> #[trigger] makers[j].quantity > 0,
    ensures
        suffix_of(fill(taker, p, makers, rem, now).0, makers),
    decreases makers.len(),
{
    if makers.len() == 0 || rem == 0 {
        lemma_suffix_self(makers);
    } else if makers[0].quantity <= rem {
        let tail = makers.drop_first();
        lemma_fill_suffix(taker, p, tail, (rem - makers[0].quantity) as u64, now);
        let r = fill(taker, p, tail, (rem - makers[0].quantity) as u64, now).0;
        assert forall|j: int| 0 <= j < r.len() implies #[trigger] r[j] == with_quantity(makers[j + makers.len() - r.len()], r[j].quantity)
            && r[j].quantity > 0 by {
            assert(tail[j + tail.len() - r.len()] == makers[j + makers.len() - r.len()]);
        }
    } else {
        let r = makers.update(0, with_quantity(makers[0], (makers[0].quantity - rem) as u64));
        assert forall|j: int| 0 <= j < r.len() implies #[trigger] r[j] == with_quantity(makers[j + makers.len() - r.len()], r[j].quantity)
            && r[j].quantity > 0 by {
            if j > 0 {
                assert(with_quantity(makers[j], makers[j].quantity) == makers[j]);
            }
        }
    }
}

proof fn lemma_residue_self(levels: Seq<LevelView>)
    requires
        positive(levels),
    ensures
        residue_of(levels, levels),
{
    assert forall|i: int| 0 <= i < levels.len() implies #[trigger] levels[i].price == levels[i + levels.len() - levels.len()].price
        && suffix_of(levels[i].orders, levels[i + levels.len() - levels.len()].orders) && levels[i].orders.len() > 0 by {
        let o = levels[i].orders;
        assert forall|j: int| 0 <= j < o.len() implies #[trigger] o[j].quantity > 0 by {
            assert(levels[i].orders[j].quantity > 0);
        }
        lemma_suffix_self(o);
    }
}

/// What matching leaves of a ladder is a residue of it; and if the
/// incoming order is left with lots, nothing that remains crosses it.
proof fn lemma_sweep_residue(taker: Order, levels: Seq<LevelView>, rem: u64, now: u64)
    requires
        positive(levels),
    ensures
        residue_of(sweep(taker, levels, rem, now).0, levels),
        sweep(taker, levels, rem, now).2 > 0 ==> sweep(taker, levels, rem, now).0.len() == 0 || !crosses(
            taker,
            sweep(taker, levels, rem, now).0[0].price,
        ),
    decreases levels.len(),
{
    if levels.len() == 0 || rem == 0 || !crosses(taker, levels[0].price) {
        lemma_residue_self(levels);
        assert(sweep(taker, levels, rem, now).0 == levels);
    } else {
        let f = fill(taker, levels[0].price, levels[0].orders, rem, now);
        lemma_fill_rest_empty_or_done(taker, levels[0].price, levels[0].orders, rem, now);
        assert forall|j: int| 0 <= j < levels[0].orders.len() implies #[trigger] levels[0].orders[j].quantity > 0 by {
            assert(levels[0].orders.len() > 0);
        }
        lemma_fill_suffix(taker, levels[0].price, levels[0].orders, rem, now);
        if f.0.len() == 0 {
            let tail = levels.drop_first();
            assert(positive(tail)) by {
                assert forall|i: int| 0 <= i < tail.len() implies #[trigger] tail[i].orders.len() > 0 && (forall|j: int|
                    0 <= j < tail[i].orders.len() ==> #[trigger] tail[i].orders[j].quantity > 0) by {
                    assert(tail[i] == levels[i + 1]);
                }
            }
            lemma_sweep_residue(taker, tail, f.2, now);
            let r = sweep(taker, tail, f.2, now).0;
            assert forall|i: int| 0 <= i < r.len() implies #[trigger] r[i].price == levels[i + levels.len() - r.len()].price
                && suffix_of(r[i].orders, levels[i + levels.len() - r.len()].orders) && r[i].orders.len() > 0 by {
                assert(tail[i + tail.len() - r.len()] == levels[i + levels.len() - r.len()]);
                assert(r[i].price == tail[i + tail.len() - r.len()].price);
            }
            assert(residue_of(r, levels));
        } else {
            let r = levels.update(0, LevelView { price: levels[0].price, orders: f.0 });
            lemma_residue_self(levels);
            assert forall|i: int| 0 <= i < r.len() implies #[trigger] r[i].price == levels[i + levels.len() - r.len()].price
                && suffix_of(r[i].orders, levels[i + levels.len() - r.len()].orders) && r[i].orders.len() > 0 by {
                if i > 0 {
                    assert(r[i] == levels[i]);
                    assert(i + levels.len() - r.len() == i);
                    assert(residue_of(levels, levels));
                    assert(levels[i].price == levels[i + levels.len() - levels.len()].price);
                    assert(suffix_of(levels[i].orders, levels[i].orders));
                } else {
                    assert(suffix_of(r[0].orders, levels[0].orders));
                }
            }
            assert(residue_of(r, levels));
        }
    }
}

/// A residue keeps each property of the book that holds of the ladder it
/// came from.
proof fn lemma_residue_keeps(new: Seq<LevelView>, old: Seq<LevelView>, side: Side, other: Seq<LevelView>)
    requires
        residue_of(new, old),
    ensures
        ladder_ok(old, side) ==> ladder_ok(new, side),
        ids_unique(old) ==> ids_unique(new),
        ids_apart(old, other) ==> ids_apart(new, other),
        ids_apart(other, old) ==> ids_apart(other, new),
        uncrossed(old, other) ==> uncrossed(new, other),
        uncrossed(other, old) ==> uncrossed(other, new),
        forall|id: u64| has_id(new, id) ==> has_id(old, id),
{
    let k = old.len() - new.len();
    assert forall|i: int, j: int| 0 <= i < new.len() && 0 <= j < new[i].orders.len() implies {
        let oi = old[i + k].orders;
        &&& 0 <= j + oi.len() - new[i].orders.len() < oi.len()
        &&& #[trigger] new[i].orders[j] == with_quantity(oi[j + oi.len() - new[i].orders.len()], new[i].orders[j].quantity)
        &&& new[i].orders[j].quantity > 0
    } by {
        assert(new[i].price == old[i + k].price);
        assert(suffix_of(new[i].orders, old[i + k].orders));
    }
    if ladder_ok(old, side) {
        assert forall|i: int| 0 <= i < new.len() implies level_ok(#[trigger] new[i], side) by {
            assert(level_ok(old[i + k], side));
            assert(new[i].price == old[i + k].price);
            let oi = old[i + k].orders;
            assert forall|j: int| 0 <= j < new[i].orders.len() implies order_ok(#[trigger] new[i].orders[j], side, new[i].price) by {
                assert(order_ok(oi[j + oi.len() - new[i].orders.len()], side, old[i + k].price));
            }
        }
        assert forall|i: int, l: int| 0 <= i < l < new.len() implies better(side, #[trigger] new[i].price, #[trigger] new[l].price) by {
            assert(better(side, old[i + k].price, old[l + k].price));
        }
    }
    if ids_unique(old) {
        assert forall|i1: int, j1: int, i2: int, j2: int|
            0 <= i1 < new.len() && 0 <= j1 < new[i1].orders.len() && 0 <= i2 < new.len() && 0 <= j2
                < new[i2].orders.len() && #[trigger] new[i1].orders[j1].id == #[trigger] new[i2].orders[j2].id
            implies i1 == i2 && j1 == j2 by {
            let o1 = old[i1 + k].orders;
            let o2 = old[i2 + k].orders;
            assert(o1[j1 + o1.len() - new[i1].orders.len()].id == o2[j2 + o2.len() - new[i2].orders.len()].id);
        }
    }
    if ids_apart(old, other) {
        assert forall|i1: int, j1: int, i2: int, j2: int|
            0 <= i1 < new.len() && 0 <= j1 < new[i1].orders.len() && 0 <= i2 < other.len() && 0 <= j2 < other[i2].orders.len()
            implies #[trigger] new[i1].orders[j1].id != #[trigger] other[i2].orders[j2].id by {
            let o1 = old[i1 + k].orders;
            assert(o1[j1 + o1.len() - new[i1].orders.len()].id != other[i2].orders[j2].id);
        }
    }
    if ids_apart(other, old) {
        assert forall|i1: int, j1: int, i2: int, j2: int|
            0 <= i1 < other.len() && 0 <= j1 < other[i1].orders.len() && 0 <= i2 < new.len() && 0 <= j2 < new[i2].orders.len()
            implies #[trigger] other[i1].orders[j1].id != #[trigger] new[i2].orders[j2].id by {
            let o2 = old[i2 + k].orders;
            assert(other[i1].orders[j1].id != o2[j2 + o2.len() - new[i2].orders.len()].id);
        }
    }
    if uncrossed(old, other) {
        assert forall|i: int, l: int| 0 <= i < new.len() && 0 <= l < other.len() implies #[trigger] new[i].price < #[trigger] other[l].price by {
            assert(old[i + k].price < other[l].price);
        }
    }
    if uncrossed(other, old) {
        assert forall|i: int, l: int| 0 <= i < other.len() && 0 <= l < new.len() implies #[trigger] other[i].price < #[trigger] new[l].price by {
            assert(other[i].price < old[l + k].price);
        }
    }
    assert forall|id: u64| has_id(new, id) implies has_id(old, id) by {
        let (i, j) = choose|i: int, j: int| 0 <= i < new.len() && 0 <= j < new[i].orders.len() && #[trigger] new[i].orders[j].id == id;
        let oi = old[i + k].orders;
        assert(oi[j + oi.len() - new[i].orders.len()].id == id);
    }
}

/// The position of the first level whose price does not come before `p`.
pub open spec fn rest_index(levels: Seq<LevelView>, side: Side, p: u64) -> int
    decreases levels.len(),
{
    if levels.len() == 0 || !better(side, levels[0].price, p) {
        0
    } else {
        1 + rest_index(levels.drop_first(), side, p)
    }
}

proof fn lemma_rest_index(levels: Seq<LevelView>, side: Side, p: u64)
    ensures
        0 <= rest_index(levels, side, p) <= levels.len(),
        forall|k: int| 0 <= k < rest_index(levels, side, p) ==> better(side, #[trigger] levels[k].price, p),
        rest_index(levels, side, p) < levels.len() ==> !better(side, levels[rest_index(levels, side, p)].price, p),
    decreases levels.len(),
{
    if levels.len() > 0 && better(side, levels[0].price, p) {
        let tail = levels.drop_first();
        lemma_rest_index(tail, side, p);
        assert forall|k: int| 0 <= k < rest_index(levels, side, p) implies better(side, #[trigger] levels[k].price, p) by {
            if k > 0 {
                assert(levels[k] == tail[k - 1]);
            }
        }
    }
}

/// `lemma_rest_keeps` where the order joins an existing level.
#[verifier::rlimit(50)]
proof fn lemma_rest_joins_level(levels: Seq<LevelView>, side: Side, o: Order, other: Seq<LevelView>, i: int)
    requires
        0 <= i <= levels.len(),
        forall|k: int| 0 <= k < i ==> better(side, #[trigger] levels[k].price, o.price),
        i < levels.len() ==> !better(side, levels[i].price, o.price),
        i < levels.len() && levels[i].price == o.price,
        ladder_ok(levels, side),
        ids_unique(levels),
        order_ok(o, side, o.price),
        !has_id(levels, o.id),
    ensures
        ladder_ok(rest_in(levels, side, o), side),
        ids_unique(rest_in(levels, side, o)),
        ids_apart(levels, other) && !has_id(other, o.id) ==> ids_apart(rest_in(levels, side, o), other),
        ids_apart(other, levels) && !has_id(other, o.id) ==> ids_apart(other, rest_in(levels, side, o)),
        uncrossed(levels, other) && (forall|l: int| 0 <= l < other.len() ==> o.price < #[trigger] other[l].price)
            ==> uncrossed(rest_in(levels, side, o), other),
        uncrossed(other, levels) && (forall|l: int| 0 <= l < other.len() ==> #[trigger] other[l].price < o.price)
            ==> uncrossed(other, rest_in(levels, side, o)),
{
    lemma_rest_in_at(levels, side, o, i);
    let new = rest_in(levels, side, o);
    let li = levels[i].orders;
    assert(new[i].orders == li.push(o));
    assert forall|a: int| 0 <= a < new.len() implies level_ok(#[trigger] new[a], side) by {
        assert(level_ok(levels[a], side));
        if a == i {
            assert forall|j: int| 0 <= j < new[a].orders.len() implies order_ok(#[trigger] new[a].orders[j], side, new[a].price) by {
                if j < li.len() {
                    assert(order_ok(li[j], side, levels[i].price));
                }
            }
        }
    }
    assert forall|a: int, b: int| 0 <= a < b < new.len() implies better(side, #[trigger] new[a].price, #[trigger] new[b].price) by {
        assert(better(side, levels[a].price, levels[b].price));
    }
    // where an order of `new` stood in `levels`, if it was there
    assert forall|a: int, j: int| 0 <= a < new.len() && 0 <= j < new[a].orders.len() && !(a == i && j == li.len())
        implies #[trigger] new[a].orders[j] == levels[a].orders[j] by {}
    assert forall|a: int, j: int| 0 <= a < new.len() && 0 <= j < new[a].orders.len() && !(a == i && j == li.len())
        implies #[trigger] new[a].orders[j].id != o.id by {
        assert(levels[a].orders[j].id != o.id);
    }
    if ids_apart(levels, other) && !has_id(other, o.id) {
        assert forall|i1: int, j1: int, i2: int, j2: int|
            0 <= i1 < new.len() && 0 <= j1 < new[i1].orders.len() && 0 <= i2 < other.len() && 0 <= j2 < other[i2].orders.len()
            implies #[trigger] new[i1].orders[j1].id != #[trigger] other[i2].orders[j2].id by {
            if !(i1 == i && j1 == li.len()) {
                assert(levels[i1].orders[j1].id != other[i2].orders[j2].id);
            }
        }
    }
    if ids_apart(other, levels) && !has_id(other, o.id) {
        assert forall|i1: int, j1: int, i2: int, j2: int|
            0 <= i1 < other.len() && 0 <= j1 < other[i1].orders.len() && 0 <= i2 < new.len() && 0 <= j2 < new[i2].orders.len()
            implies #[trigger] other[i1].orders[j1].id != #[trigger] new[i2].orders[j2].id by {
            if !(i2 == i && j2 == li.len()) {
                assert(other[i1].orders[j1].id != levels[i2].orders[j2].id);
            }
        }
    }
    assert forall|i1: int, j1: int, i2: int, j2: int|
        0 <= i1 < new.len() && 0 <= j1 < new[i1].orders.len() && 0 <= i2 < new.len() && 0 <= j2
            < new[i2].orders.len() && #[trigger] new[i1].orders[j1].id == #[trigger] new[i2].orders[j2].id
        implies i1 == i2 && j1 == j2 by {
        if !(i1 == i && j1 == li.len()) && !(i2 == i && j2 == li.len()) {
            assert(levels[i1].orders[j1].id == levels[i2].orders[j2].id);
        }
    }
}

/// `lemma_rest_keeps` where the order opens a new level.
#[verifier::rlimit(50)]
proof fn lemma_rest_opens_level(levels: Seq<LevelView>, side: Side, o: Order, other: Seq<LevelView>, i: int)
    requires
        0 <= i <= levels.len(),
        forall|k: int| 0 <= k < i ==> better(side, #[trigger] levels[k].price, o.price),
        i < levels.len() ==> !better(side, levels[i].price, o.price),
        !(i < levels.len() && levels[i].price == o.price),
        ladder_ok(levels, side),
        ids_unique(levels),
        order_ok(o, side, o.price),
        !has_id(levels, o.id),
    ensures
        ladder_ok(rest_in(levels, side, o), side),
        ids_unique(rest_in(levels, side, o)),
        ids_apart(levels, other) && !has_id(other, o.id) ==> ids_apart(rest_in(levels, side, o), other),
        ids_apart(other, levels) && !has_id(other, o.id) ==> ids_apart(other, rest_in(levels, side, o)),
        uncrossed(levels, other) && (forall|l: int| 0 <= l < other.len() ==> o.price < #[trigger] other[l].price)
            ==> uncrossed(rest_in(levels, side, o), other),
        uncrossed(other, levels) && (forall|l: int| 0 <= l < other.len() ==> #[trigger] other[l].price < o.price)
            ==> uncrossed(other, rest_in(levels, side, o)),
{
    lemma_rest_in_at(levels, side, o, i);
    let new = rest_in(levels, side, o);
    if i < levels.len() {
        assert(better(side, o.price, levels[i].price));
    }
    assert forall|a: int| 0 <= a < new.len() implies level_ok(#[trigger] new[a], side) by {
        if a < i {
            assert(level_ok(levels[a], side));
        } else if a > i {
            assert(level_ok(levels[a - 1], side));
        }
    }
    assert forall|a: int, b: int| 0 <= a < b < new.len() implies better(side, #[trigger] new[a].price, #[trigger] new[b].price) by {
        if a < i && b < i {
            assert(better(side, levels[a].price, levels[b].price));
        } else if a < i && b > i {
            assert(better(side, levels[a].price, levels[b - 1].price));
        } else if a > i {
            assert(better(side, levels[a - 1].price, levels[b - 1].price));
        } else if a == i && b > i + 1 {
            assert(better(side, levels[i].price, levels[b - 1].price));
        }
    }
    assert forall|a: int, j: int| 0 <= a < new.len() && 0 <= j < new[a].orders.len() && a != i
        implies #[trigger] new[a].orders[j].id != o.id by {
        if a < i {
            assert(levels[a].orders[j].id != o.id);
        } else {
            assert(levels[a - 1].orders[j].id != o.id);
        }
    }
    if ids_apart(levels, other) && !has_id(other, o.id) {
        assert forall|i1: int, j1: int, i2: int, j2: int|
            0 <= i1 < new.len() && 0 <= j1 < new[i1].orders.len() && 0 <= i2 < other.len() && 0 <= j2 < other[i2].orders.len()
            implies #[trigger] new[i1].orders[j1].id != #[trigger] other[i2].orders[j2].id by {
            if i1 < i {
                assert(levels[i1].orders[j1].id != other[i2].orders[j2].id);
            } else if i1 > i {
                assert(levels[i1 - 1].orders[j1].id != other[i2].orders[j2].id);
            }
        }
    }
    if ids_apart(other, levels) && !has_id(other, o.id) {
        assert forall|i1: int, j1: int, i2: int, j2: int|
            0 <= i1 < other.len() && 0 <= j1 < other[i1].orders.len() && 0 <= i2 < new.len() && 0 <= j2 < new[i2].orders.len()
            implies #[trigger] other[i1].orders[j1].id != #[trigger] new[i2].orders[j2].id by {
            if i2 < i {
                assert(other[i1].orders[j1].id != levels[i2].orders[j2].id);
            } else if i2 > i {
                assert(other[i1].orders[j1].id != levels[i2 - 1].orders[j2].id);
            }
        }
    }
    assert forall|i1: int, j1: int, i2: int, j2: int|
        0 <= i1 < new.len() && 0 <= j1 < new[i1].orders.len() && 0 <= i2 < new.len() && 0 <= j2
            < new[i2].orders.len() && #[trigger] new[i1].orders[j1].id == #[trigger] new[i2].orders[j2].id
        implies i1 == i2 && j1 == j2 by {
        if i1 != i && i2 != i {
            let a1 = if i1 < i { i1 } else { i1 - 1 };
            let a2 = if i2 < i { i2 } else { i2 - 1 };
            assert(levels[a1].orders[j1].id == levels[a2].orders[j2].id);
        }
    }
    if uncrossed(levels, other) && (forall|l: int| 0 <= l < other.len() ==> o.price < #[trigger] other[l].price) {
        assert forall|a: int, l: int| 0 <= a < new.len() && 0 <= l < other.len() implies #[trigger] new[a].price < #[trigger] other[l].price by {
            if a < i {
                assert(levels[a].price < other[l].price);
            } else if a > i {
                assert(levels[a - 1].price < other[l].price);
            }
        }
    }
    if uncrossed(other, levels) && (forall|l: int| 0 <= l < other.len() ==> #[trigger] other[l].price < o.price) {
        assert forall|l: int, a: int| 0 <= l < other.len() && 0 <= a < new.len() implies #[trigger] other[l].price < #[trigger] new[a].price by {
            if a < i {
                assert(other[l].price < levels[a].price);
            } else if a > i {
                assert(other[l].price < levels[a - 1].price);
            }
        }
    }
}

proof fn lemma_ladder_positive(levels: Seq<LevelView>, side: Side)
    requires
        ladder_ok(levels, side),
    ensures
        positive(levels),
{
    assert forall|i: int| 0 <= i < levels.len() implies #[trigger] levels[i].orders.len() > 0 && (forall|j: int|
        0 <= j < levels[i].orders.len() ==> #[trigger] levels[i].orders[j].quantity > 0) by {
        assert(level_ok(levels[i], side));
        assert forall|j: int| 0 <= j < levels[i].orders.len() implies #[trigger] levels[i].orders[j].quantity > 0 by {
            assert(order_ok(levels[i].orders[j], side, levels[i].price));
        }
    }
}

/// `ids_within` says that each id that rests is in the set.
proof fn lemma_within(levels: Seq<LevelView>, s: Set<u64>)
    ensures
        ids_within(levels, s) <==> (forall|id: u64| has_id(levels, id) ==> s.contains(id)),
{
    if ids_within(levels, s) {
        assert forall|id: u64| has_id(levels, id) implies s.contains(id) by {
            let (i, j) = choose|i: int, j: int| 0 <= i < levels.len() && 0 <= j < levels[i].orders.len() && #[trigger] levels[i].orders[j].id == id;
        }
    }
    if forall|id: u64| has_id(levels, id) ==> s.contains(id) {
        assert forall|i: int, j: int| 0 <= i < levels.len() && 0 <= j < levels[i].orders.len() implies s.contains(
            #[trigger] levels[i].orders[j].id,
        ) by {
            assert(has_id(levels, levels[i].orders[j].id));
        }
    }
}

/// Resting `o` adds no id but its own.
proof fn lemma_rest_ids(levels: Seq<LevelView>, side: Side, o: Order)
    ensures
        forall|id: u64| has_id(rest_in(levels, side, o), id) ==> has_id(levels, id) || id == o.id,
{
    let i = rest_index(levels, side, o.price);
    lemma_rest_index(levels, side, o.price);
    lemma_rest_in_at(levels, side, o, i);
    let new = rest_in(levels, side, o);
    assert forall|id: u64| has_id(new, id) implies has_id(levels, id) || id == o.id by {
        let (a, j) = choose|a: int, j: int| 0 <= a < new.len() && 0 <= j < new[a].orders.len() && #[trigger] new[a].orders[j].id == id;
        if i < levels.len() && levels[i].price == o.price {
            if !(a == i && j == levels[i].orders.len()) {
                assert(levels[a].orders[j].id == id);
            }
        } else if a < i {
            assert(levels[a].orders[j].id == id);
        } else if a > i {
            assert(levels[a - 1].orders[j].id == id);
        }
    }
}

/// Removing a located order adds no id.
proof fn lemma_without_ids(levels: Seq<LevelView>, p: u64, id0: u64)
    requires
        located(levels, p, id0),
    ensures
        forall|id: u64| has_id(without(levels, p, id0), id) ==> has_id(levels, id),
{
    let (i, j) = location(levels, p, id0);
    let rest = levels[i].orders.remove(j);
    let new = without(levels, p, id0);
    assert forall|id: u64| has_id(new, id) implies has_id(levels, id) by {
        let (a, k) = choose|a: int, k: int| 0 <= a < new.len() && 0 <= k < new[a].orders.len() && #[trigger] new[a].orders[k].id == id;
        let sa = if rest.len() == 0 && a >= i { a + 1 } else { a };
        let sk = if rest.len() > 0 && a == i && k >= j { k + 1 } else { k };
        assert(new[a].orders[k] == levels[sa].orders[sk]);
        assert(levels[sa].orders[sk].id == id);
    }
}

/// Placing a valid order whose id the book has not seen keeps its
/// invariant.
proof fn lemma_placed_ok(b: BookView, o: Order, now: u64)
    requires
        book_ok(b),
        order_valid(o),
        !b.seen.contains(o.id),
    ensures
        book_ok(placed(b, o, now)),
{
    let s2 = b.seen.insert(o.id);
    lemma_within(b.bids, b.seen);
    lemma_within(b.asks, b.seen);
    assert(!book_has_id(b, o.id));
    let side = o.side;
    let oside = if side == Side::Buy { Side::Sell } else { Side::Buy };
    let opp = opposite_ladder(b, side);
    let own = own_ladder(b, side);
    let m = matched(b, o, now);
    lemma_ladder_positive(opp, oside);
    lemma_sweep_residue(o, opp, o.quantity, now);
    lemma_residue_keeps(m.0, opp, oside, own);
    if m.2 > 0 && o.order_type == OrderType::Limit {
        let r = resting(o, m.2, now);
        assert(!has_id(m.0, o.id));
        if m.0.len() > 0 {
            assert(!crosses(o, m.0[0].price));
        }
        if side == Side::Buy {
            assert forall|l: int| 0 <= l < m.0.len() implies r.price < #[trigger] m.0[l].price by {
                if l > 0 {
                    assert(better(oside, m.0[0].price, m.0[l].price));
                }
            }
        } else {
            assert forall|l: int| 0 <= l < m.0.len() implies #[trigger] m.0[l].price < r.price by {
                if l > 0 {
                    assert(better(oside, m.0[0].price, m.0[l].price));
                }
            }
        }
        lemma_rest_keeps(own, side, r, m.0);
        lemma_rest_ids(own, side, r);
    }
    let nb = placed(b, o, now);
    lemma_within(nb.bids, s2);
    lemma_within(nb.asks, s2);
}

/// The id of the maker in a trade of the incoming order `taker`.
pub open spec fn maker_id(taker: Order, t: Trade) -> u64 {
    if taker.side == Side::Buy {
        t.sell_order_id
    } else {
        t.buy_order_id
    }
}

/// The total quantity of the trades.
pub open spec fn traded(ts: Seq<Trade>) -> int
    decreases ts.len(),
{
    if ts.len() == 0 {
        0
    } else {
        ts[0].quantity + traded(ts.drop_first())
    }
}

/// The quantity that the events account for: traded, rested, or left
/// unfilled by a market order.
pub open spec fn accounted(evs: Seq<Event>) -> int
    decreases evs.len(),
{
    if evs.len() == 0 {
        0
    } else {
        let head = match evs[0] {
            Event::Trade { trade } => trade.quantity as int,
            Event::OrderRested { quantity, .. } => quantity as int,
            Event::OrderCanceled { reason: CancelReason::MarketUnfilled, remaining, .. } => remaining as int,
            _ => 0,
        };
        head + accounted(evs.drop_first())
    }
}

proof fn lemma_traded_concat(a: Seq<Trade>, b: Seq<Trade>)
    ensures
        traded(a + b) == traded(a) + traded(b),
    decreases a.len(),
{
    if a.len() > 0 {
        lemma_traded_concat(a.drop_first(), b);
        assert((a + b).drop_first() =~= a.drop_first() + b);
    } else {
        assert(a + b =~= b);
    }
}

proof fn lemma_accounted_concat(a: Seq<Event>, b: Seq<Event>)
    ensures
        accounted(a + b) == accounted(a) + accounted(b),
    decreases a.len(),
{
    if a.len() > 0 {
        lemma_accounted_concat(a.drop_first(), b);
        assert((a + b).drop_first() =~= a.drop_first() + b);
    } else {
        assert(a + b =~= b);
    }
}

proof fn lemma_accounted_trades(ts: Seq<Trade>)
    ensures
        accounted(trade_events(ts)) == traded(ts),
    decreases ts.len(),
{
    if ts.len() > 0 {
        lemma_accounted_trades(ts.drop_first());
        assert(trade_events(ts).drop_first() =~= trade_events(ts.drop_first()));
    }
}

proof fn lemma_fill_conserves(taker: Order, p: u64, makers: Seq<Order>, rem: u64, now: u64)
    ensures
        traded(fill(taker, p, makers, rem, now).1) + fill(taker, p, makers, rem, now).2 == rem,
    decreases makers.len(),
{
    if makers.len() > 0 && rem > 0 {
        if makers[0].quantity <= rem {
            let r = fill(taker, p, makers.drop_first(), (rem - makers[0].quantity) as u64, now);
            lemma_fill_conserves(taker, p, makers.drop_first(), (rem - makers[0].quantity) as u64, now);
            let t = trade_of(taker, makers[0].id, p, makers[0].quantity, now);
            lemma_traded_concat(seq![t], r.1);
            assert(seq![t].drop_first() =~= Seq::<Trade>::empty());
            reveal_with_fuel(traded, 2);
        } else {
            let t = trade_of(taker, makers[0].id, p, rem, now);
            assert(seq![t].drop_first() =~= Seq::<Trade>::empty());
            reveal_with_fuel(traded, 2);
            assert(traded(seq![t]) == rem);
        }
    }
}

proof fn lemma_sweep_conserves(taker: Order, levels: Seq<LevelView>, rem: u64, now: u64)
    ensures
        traded(sweep(taker, levels, rem, now).1) + sweep(taker, levels, rem, now).2 == rem,
    decreases levels.len(),
{
    if levels.len() > 0 && rem > 0 && crosses(taker, levels[0].price) {
        let f = fill(taker, levels[0].price, levels[0].orders, rem, now);
        lemma_fill_conserves(taker, levels[0].price, levels[0].orders, rem, now);
        if f.0.len() == 0 {
            lemma_sweep_conserves(taker, levels.drop_first(), f.2, now);
            lemma_traded_concat(f.1, sweep(taker, levels.drop_first(), f.2, now).1);
        }
    }
}

/// Every command keeps the book's invariant: no empty level, only limit
/// orders with positive quantities rest, bids stay below asks, and ids are
/// unique across both ladders.
pub proof fn law_apply_keeps_invariant(b: BookView, cmd: Command, now: u64)
    requires
        book_ok(b),
    ensures
        book_ok(applied(b, cmd, now)),
{
    match cmd {
        Command::NewOrder(o) => {
            if order_valid(o) && !b.seen.contains(o.id) {
                lemma_placed_ok(b, o, now);
            }
        },
        Command::CancelOrder { id, side, price } => {
            if located(own_ladder(b, side), price, id) {
                let own = own_ladder(b, side);
                let opp = opposite_ladder(b, side);
                lemma_without_keeps(own, side, price, id, opp);
                lemma_without_ids(own, price, id);
                lemma_within(own, b.seen);
                lemma_within(without(own, price, id), b.seen);
            }
        },
    }
}

/// Removing a located order keeps each property of the book.
proof fn lemma_without_keeps(levels: Seq<LevelView>, side: Side, p: u64, id: u64, other: Seq<LevelView>)
    requires
        located(levels, p, id),
        ladder_ok(levels, side),
        ids_unique(levels),
    ensures
        ladder_ok(without(levels, p, id), side),
        ids_unique(without(levels, p, id)),
        ids_apart(levels, other) ==> ids_apart(without(levels, p, id), other),
        ids_apart(other, levels) ==> ids_apart(other, without(levels, p, id)),
        uncrossed(levels, other) ==> uncrossed(without(levels, p, id), other),
        uncrossed(other, levels) ==> uncrossed(other, without(levels, p, id)),
{
    let (i, j) = location(levels, p, id);
    let li = levels[i].orders;
    let rest = li.remove(j);
    let new = without(levels, p, id);
    // each level of `new` and where it stood in `levels`
    let src = |a: int| if rest.len() == 0 && a >= i { a + 1 } else { a };
    // each order of a level of `new` and where it stood in its level
    let pos = |a: int, k: int| if rest.len() > 0 && a == i && k >= j { k + 1 } else { k };
    assert forall|a: int| 0 <= a < new.len() implies #[trigger] new[a].price == levels[src(a)].price && new[a].orders.len() > 0
        && (forall|k: int| 0 <= k < new[a].orders.len() ==> #[trigger] new[a].orders[k] == levels[src(a)].orders[pos(a, k)]
        && 0 <= pos(a, k) < levels[src(a)].orders.len()) by {
        assert(level_ok(levels[src(a)], side));
    }
    assert forall|a: int| 0 <= a < new.len() implies level_ok(#[trigger] new[a], side) by {
        assert(level_ok(levels[src(a)], side));
        assert forall|k: int| 0 <= k < new[a].orders.len() implies order_ok(#[trigger] new[a].orders[k], side, new[a].price) by {
            assert(new[a].orders[k] == levels[src(a)].orders[pos(a, k)]);
        }
    }
    assert forall|a: int, c: int| 0 <= a < c < new.len() implies better(side, #[trigger] new[a].price, #[trigger] new[c].price) by {
        assert(better(side, levels[src(a)].price, levels[src(c)].price));
    }
    assert forall|i1: int, j1: int, i2: int, j2: int|
        0 <= i1 < new.len() && 0 <= j1 < new[i1].orders.len() && 0 <= i2 < new.len() && 0 <= j2
            < new[i2].orders.len() && #[trigger] new[i1].orders[j1].id == #[trigger] new[i2].orders[j2].id
        implies i1 == i2 && j1 == j2 by {
        assert(new[i1].orders[j1] == levels[src(i1)].orders[pos(i1, j1)]);
        assert(new[i2].orders[j2] == levels[src(i2)].orders[pos(i2, j2)]);
    }
    if ids_apart(levels, other) {
        assert forall|i1: int, j1: int, i2: int, j2: int|
            0 <= i1 < new.len() && 0 <= j1 < new[i1].orders.len() && 0 <= i2 < other.len() && 0 <= j2 < other[i2].orders.len()
            implies #[trigger] new[i1].orders[j1].id != #[trigger] other[i2].orders[j2].id by {
            assert(new[i1].orders[j1] == levels[src(i1)].orders[pos(i1, j1)]);
        }
    }
    if ids_apart(other, levels) {
        assert forall|i1: int, j1: int, i2: int, j2: int|
            0 <= i1 < other.len() && 0 <= j1 < other[i1].orders.len() && 0 <= i2 < new.len() && 0 <= j2 < new[i2].orders.len()
            implies #[trigger] other[i1].orders[j1].id != #[trigger] new[i2].orders[j2].id by {
            assert(new[i2].orders[j2] == levels[src(i2)].orders[pos(i2, j2)]);
        }
    }
    if uncrossed(levels, other) {
        assert forall|a: int, l: int| 0 <= a < new.len() && 0 <= l < other.len() implies #[trigger] new[a].price < #[trigger] other[l].price by {
            assert(levels[src(a)].price < other[l].price);
        }
    }
    if uncrossed(other, levels) {
        assert forall|l: int, a: int| 0 <= l < other.len() && 0 <= a < new.len() implies #[trigger] other[l].price < #[trigger] new[a].price by {
            assert(other[l].price < levels[src(a)].price);
        }
    }
}

/// A new order is accounted for in full: the quantities of its trades,
/// plus what rests of it, plus what a market order leaves unfilled, add up
/// to its quantity. In particular its trades never exceed it.
pub proof fn law_quantity_conserved(b: BookView, o: Order, now: u64)
    requires
        book_ok(b),
        order_valid(o),
        !b.seen.contains(o.id),
    ensures
        accounted(applied_events(b, Command::NewOrder(o), now)) == o.quantity,
        traded(matched(b, o, now).1) <= o.quantity,
{
    let m = matched(b, o, now);
    lemma_sweep_conserves(o, opposite_ladder(b, o.side), o.quantity, now);
    let head = seq![Event::OrderAccepted { id: o.id }];
    let last = seq![disposition(o, m.2)];
    lemma_accounted_concat(head + trade_events(m.1), last);
    lemma_accounted_concat(head, trade_events(m.1));
    lemma_accounted_trades(m.1);
    assert(accounted(head) == 0) by {
        assert(head.drop_first() =~= Seq::<Event>::empty());
        reveal_with_fuel(accounted, 2);
    }
    assert(accounted(last) == m.2) by {
        assert(last.drop_first() =~= Seq::<Event>::empty());
        reveal_with_fuel(accounted, 2);
    }
}

/// A cancel whose coordinates locate no order is rejected and leaves both
/// ladders as they were, however often it is repeated.
pub proof fn law_unknown_cancel_idempotent(b: BookView, id: u64, side: Side, price: u64, now: u64)
    requires
        !located(own_ladder(b, side), price, id),
    ensures
        applied_events(b, Command::CancelOrder { id, side, price }, now) == seq![Event::CancelRejected { id }],
        applied(b, Command::CancelOrder { id, side, price }, now).bids == b.bids,
        applied(b, Command::CancelOrder { id, side, price }, now).asks == b.asks,
        applied_events(applied(b, Command::CancelOrder { id, side, price }, now), Command::CancelOrder { id, side, price }, now)
            == seq![Event::CancelRejected { id }],
        applied(applied(b, Command::CancelOrder { id, side, price }, now), Command::CancelOrder { id, side, price }, now).bids
            == b.bids,
        applied(applied(b, Command::CancelOrder { id, side, price }, now), Command::CancelOrder { id, side, price }, now).asks
            == b.asks,
{
}

proof fn lemma_fill_fifo(taker: Order, p: u64, makers: Seq<Order>, rem: u64, now: u64)
    ensures
        fill(taker, p, makers, rem, now).1.len() <= makers.len(),
        fill(taker, p, makers, rem, now).0.len() == 0 ==> fill(taker, p, makers, rem, now).1.len() == makers.len(),
        forall|i: int| 0 <= i < fill(taker, p, makers, rem, now).1.len() ==> maker_id(taker, #[trigger] fill(taker, p, makers, rem, now).1[i])
            == makers[i].id && fill(taker, p, makers, rem, now).1[i].price == p,
        forall|i: int| 0 <= i < fill(taker, p, makers, rem, now).1.len() - 1 ==> #[trigger] fill(taker, p, makers, rem, now).1[i].quantity
            == makers[i].quantity,
        fill(taker, p, makers, rem, now).0.len() == 0 ==> forall|i: int| 0 <= i < fill(taker, p, makers, rem, now).1.len()
            ==> #[trigger] fill(taker, p, makers, rem, now).1[i].quantity == makers[i].quantity,
    decreases makers.len(),
{
    if makers.len() > 0 && rem > 0 {
        if makers[0].quantity <= rem {
            let tail = makers.drop_first();
            let r = fill(taker, p, tail, (rem - makers[0].quantity) as u64, now);
            lemma_fill_fifo(taker, p, tail, (rem - makers[0].quantity) as u64, now);
            let ts = fill(taker, p, makers, rem, now).1;
            assert forall|i: int| 0 < i < ts.len() implies #[trigger] ts[i] == r.1[i - 1] && makers[i] == tail[i - 1] by {}
        }
    }
}

/// Time priority: at the best level of the other side, an incoming order
/// that crosses it trades with the resting orders in the order they
/// arrived, and fills each one in full before it trades with the next.
pub proof fn law_time_priority(b: BookView, o: Order, now: u64)
    requires
        opposite_ladder(b, o.side).len() > 0,
        crosses(o, opposite_ladder(b, o.side)[0].price),
        o.quantity > 0,
    ensures
        ({
            let level = opposite_ladder(b, o.side)[0].orders;
            let ts = matched(b, o, now).1;
            &&& forall|i: int| 0 <= i < ts.len() && i < level.len() ==> maker_id(o, #[trigger] ts[i]) == level[i].id
            &&& forall|i: int| 0 <= i < ts.len() - 1 && i < level.len() ==> #[trigger] ts[i].quantity == level[i].quantity
        }),
{
    let levels = opposite_ladder(b, o.side);
    let level = levels[0].orders;
    let f = fill(o, levels[0].price, level, o.quantity, now);
    lemma_fill_fifo(o, levels[0].price, level, o.quantity, now);
    let ts = matched(b, o, now).1;
    if f.0.len() == 0 {
        let rest = sweep(o, levels.drop_first(), f.2, now).1;
        assert(ts == f.1 + rest);
        assert forall|i: int| 0 <= i < ts.len() && i < level.len() && i < f.1.len() implies #[trigger] ts[i] == f.1[i] by {}
    } else {
        assert(ts == f.1);
    }
}

/// Time priority on arrival: an order that rests joins the back of the
/// level for its price, behind every order already there, or opens that
/// level alone.
pub proof fn law_rest_at_back(levels: Seq<LevelView>, side: Side, o: Order)
    requires
        ladder_ok(levels, side),
    ensures
        forall|i: int| first_level(levels, o.price, i) ==> #[trigger] rest_in(levels, side, o)[i] == (LevelView {
            price: o.price,
            orders: levels[i].orders.push(o),
        }),
        (forall|i: int| 0 <= i < levels.len() ==> #[trigger] levels[i].price != o.price) ==> exists|i: int|
            0 <= i < rest_in(levels, side, o).len() && #[trigger] rest_in(levels, side, o)[i] == single_level(o),
{
    let r = rest_index(levels, side, o.price);
    lemma_rest_index(levels, side, o.price);
    lemma_rest_in_at(levels, side, o, r);
    assert forall|i: int| first_level(levels, o.price, i) implies #[trigger] rest_in(levels, side, o)[i] == (LevelView {
        price: o.price,
        orders: levels[i].orders.push(o),
    }) by {
        if i < r {
            assert(better(side, levels[i].price, o.price));
        } else if i > r {
            assert(better(side, levels[r].price, levels[i].price));
        }
    }
    if forall|i: int| 0 <= i < levels.len() ==> #[trigger] levels[i].price != o.price {
        if r < levels.len() {
            assert(levels[r].price != o.price);
        }
        assert(rest_in(levels, side, o)[r] == single_level(o));
    }
}

/// Price priority: the first trade of an incoming order is at the best
/// price of the other side.
pub proof fn law_price_priority(b: BookView, o: Order, now: u64)
    requires
        matched(b, o, now).1.len() > 0,
        ladder_ok(opposite_ladder(b, o.side), if o.side == Side::Buy { Side::Sell } else { Side::Buy }),
    ensures
        matched(b, o, now).1[0].price == opposite_ladder(b, o.side)[0].price,
{
    let levels = opposite_ladder(b, o.side);
    let f = fill(o, levels[0].price, levels[0].orders, o.quantity, now);
    lemma_fill_fifo(o, levels[0].price, levels[0].orders, o.quantity, now);
    assert(level_ok(levels[0], if o.side == Side::Buy { Side::Sell } else { Side::Buy }));
    assert(f.1.len() > 0);
}

/// The prices of a ladder are strictly in priority order.
pub open spec fn prices_ordered(levels: Seq<LevelView>, side: Side) -> bool {
    forall|i: int, k: int| 0 <= i < k < levels.len() ==> better(side, #[trigger] levels[i].price, #[trigger] levels[k].price)
}

proof fn lemma_sweep_prices(taker: Order, levels: Seq<LevelView>, rem: u64, now: u64, side: Side)
    requires
        prices_ordered(levels, side),
    ensures
        forall|j: int| 0 <= j < sweep(taker, levels, rem, now).1.len() ==> !better(side, #[trigger] sweep(taker, levels, rem, now).1[j].price, levels[0].price),
        forall|i: int, j: int| 0 <= i < j < sweep(taker, levels, rem, now).1.len() ==> !better(side, #[trigger] sweep(taker, levels, rem, now).1[j].price,
            #[trigger] sweep(taker, levels, rem, now).1[i].price),
    decreases levels.len(),
{
    if levels.len() > 0 && rem > 0 && crosses(taker, levels[0].price) {
        let p0 = levels[0].price;
        let f = fill(taker, p0, levels[0].orders, rem, now);
        lemma_fill_fifo(taker, p0, levels[0].orders, rem, now);
        if f.0.len() == 0 {
            let tail = levels.drop_first();
            assert(prices_ordered(tail, side)) by {
                assert forall|i: int, k: int| 0 <= i < k < tail.len() implies better(side, #[trigger] tail[i].price, #[trigger] tail[k].price) by {
                    assert(better(side, levels[i + 1].price, levels[k + 1].price));
                }
            }
            lemma_sweep_prices(taker, tail, f.2, now, side);
            let sn = sweep(taker, tail, f.2, now).1;
            let ts = f.1 + sn;
            assert forall|j: int| 0 <= j < sn.len() implies !better(side, #[trigger] sn[j].price, p0) by {
                assert(!better(side, sn[j].price, tail[0].price));
                assert(better(side, levels[0].price, levels[1].price));
            }
            assert forall|j: int| 0 <= j < ts.len() implies !better(side, #[trigger] ts[j].price, p0) by {
                if j >= f.1.len() {
                    assert(ts[j] == sn[j - f.1.len()]);
                }
            }
            assert forall|i: int, j: int| 0 <= i < j < ts.len() implies !better(side, #[trigger] ts[j].price, #[trigger] ts[i].price) by {
                if j < f.1.len() {
                } else if i < f.1.len() {
                    assert(ts[j] == sn[j - f.1.len()]);
                    assert(!better(side, sn[j - f.1.len()].price, p0));
                } else {
                    assert(ts[j] == sn[j - f.1.len()]);
                    assert(ts[i] == sn[i - f.1.len()]);
                }
            }
        }
    }
}

/// Price priority across the whole match: no trade of an incoming order is
/// at a better price than an earlier one, and none is better than the best
/// price of the other side.
pub proof fn law_prices_in_priority_order(b: BookView, o: Order, now: u64)
    requires
        book_ok(b),
    ensures
        ({
            let oside = if o.side == Side::Buy { Side::Sell } else { Side::Buy };
            let ts = matched(b, o, now).1;
            &&& forall|j: int| 0 <= j < ts.len() ==> !better(oside, #[trigger] ts[j].price, opposite_ladder(b, o.side)[0].price)
            &&& forall|i: int, j: int| 0 <= i < j < ts.len() ==> !better(oside, #[trigger] ts[j].price, #[trigger] ts[i].price)
        }),
{
    let oside = if o.side == Side::Buy { Side::Sell } else { Side::Buy };
    lemma_sweep_prices(o, opposite_ladder(b, o.side), o.quantity, now, oside);
}

/// Resting a new order keeps each property of the book.
proof fn lemma_rest_keeps(levels: Seq<LevelView>, side: Side, o: Order, other: Seq<LevelView>)
    requires
        ladder_ok(levels, side),
        ids_unique(levels),
        order_ok(o, side, o.price),
        !has_id(levels, o.id),
    ensures
        ladder_ok(rest_in(levels, side, o), side),
        ids_unique(rest_in(levels, side, o)),
        ids_apart(levels, other) && !has_id(other, o.id) ==> ids_apart(rest_in(levels, side, o), other),
        ids_apart(other, levels) && !has_id(other, o.id) ==> ids_apart(other, rest_in(levels, side, o)),
        uncrossed(levels, other) && (forall|l: int| 0 <= l < other.len() ==> o.price < #[trigger] other[l].price)
            ==> uncrossed(rest_in(levels, side, o), other),
        uncrossed(other, levels) && (forall|l: int| 0 <= l < other.len() ==> #[trigger] other[l].price < o.price)
            ==> uncrossed(other, rest_in(levels, side, o)),
{
    let i = rest_index(levels, side, o.price);
    lemma_rest_index(levels, side, o.price);
    if i < levels.len() && levels[i].price == o.price {
        lemma_rest_joins_level(levels, side, o, other, i);
    } else {
        lemma_rest_opens_level(levels, side, o, other, i);
    }
}

/// What a book holds: its two ladders in priority order, the sequence
/// number that the next command will get, and the ids of every order it has
/// accepted.
pub struct BookView {
    pub bids: Seq<LevelView>,
    pub asks: Seq<LevelView>,
    pub next_seq: u64,
    pub seen: Set<u64>,
}

/// A per-symbol limit-order book.
pub struct OrderBook {
    /// Buy levels, highest price first.
    bids: Vec<PriceLevel>,
    /// Sell levels, lowest price first.
    asks: Vec<PriceLevel>,
    next_seq: u64,
    /// Ids of the orders accepted so far, in order of arrival.
    seen: Vec<u64>,
}

impl View for OrderBook {
    type V = BookView;

    closed spec fn view(&self) -> BookView {
        BookView {
            bids: ladder_view(self.bids@),
            asks: ladder_view(self.asks@),
            next_seq: self.next_seq,
            seen: Set::new(|id: u64| self.seen@.contains(id)),
        }
    }
}

/// A resting order of a level of `side` at price `p`.
pub open spec fn order_ok(o: Order, side: Side, p: u64) -> bool {
    o.quantity > 0 && o.order_type == OrderType::Limit && o.side == side && o.price == p
}

/// A level is non-empty and each of its orders rests well.
pub open spec fn level_ok(l: LevelView, side: Side) -> bool {
    l.orders.len() > 0 && forall|j: int| 0 <= j < l.orders.len() ==> order_ok(#[trigger] l.orders[j], side, l.price)
}

/// Every level is well formed and the prices are strictly in priority
/// order.
pub open spec fn ladder_ok(levels: Seq<LevelView>, side: Side) -> bool {
    &&& forall|i: int| 0 <= i < levels.len() ==> level_ok(#[trigger] levels[i], side)
    &&& forall|i: int, k: int| 0 <= i < k < levels.len() ==> better(side, #[trigger] levels[i].price, #[trigger] levels[k].price)
}

/// No two resting orders of a ladder share an id.
pub open spec fn ids_unique(levels: Seq<LevelView>) -> bool {
    forall|i1: int, j1: int, i2: int, j2: int|
        0 <= i1 < levels.len() && 0 <= j1 < levels[i1].orders.len() && 0 <= i2 < levels.len() && 0 <= j2
            < levels[i2].orders.len() && #[trigger] levels[i1].orders[j1].id == #[trigger] levels[i2].orders[j2].id
            ==> i1 == i2 && j1 == j2
}

/// No resting order of `a` shares an id with one of `b`.
pub open spec fn ids_apart(a: Seq<LevelView>, b: Seq<LevelView>) -> bool {
    forall|i1: int, j1: int, i2: int, j2: int|
        0 <= i1 < a.len() && 0 <= j1 < a[i1].orders.len() && 0 <= i2 < b.len() && 0 <= j2 < b[i2].orders.len()
            ==> #[trigger] a[i1].orders[j1].id != #[trigger] b[i2].orders[j2].id
}

/// Every bid is priced below every ask.
pub open spec fn uncrossed(bids: Seq<LevelView>, asks: Seq<LevelView>) -> bool {
    forall|i: int, k: int| 0 <= i < bids.len() && 0 <= k < asks.len() ==> #[trigger] bids[i].price < #[trigger] asks[k].price
}

/// Every resting order of `levels` has its id in `s`.
pub open spec fn ids_within(levels: Seq<LevelView>, s: Set<u64>) -> bool {
    forall|i: int, j: int| 0 <= i < levels.len() && 0 <= j < levels[i].orders.len() ==> s.contains(
        #[trigger] levels[i].orders[j].id,
    )
}

/// The book's invariant: no empty level, only positive limit orders rest,
/// the book is not crossed, ids are unique across both ladders, and every
/// resting order was accepted by the book.
pub open spec fn book_ok(b: BookView) -> bool {
    &&& ladder_ok(b.bids, Side::Buy)
    &&& ladder_ok(b.asks, Side::Sell)
    &&& ids_unique(b.bids)
    &&& ids_unique(b.asks)
    &&& ids_apart(b.bids, b.asks)
    &&& uncrossed(b.bids, b.asks)
    &&& ids_within(b.bids, b.seen)
    &&& ids_within(b.asks, b.seen)
}

/// An incoming order is well formed: a positive quantity, and a positive
/// price if it is a limit order.
pub open spec fn order_valid(o: Order) -> bool {
    o.quantity > 0 && (o.order_type == OrderType::Market || o.price > 0)
}

/// An order with id `id` rests in the book.
pub open spec fn book_has_id(b: BookView, id: u64) -> bool {
    has_id(b.bids, id) || has_id(b.asks, id)
}

/// The ladder that an incoming order of `side` trades against.
pub open spec fn opposite_ladder(b: BookView, side: Side) -> Seq<LevelView> {
    if side == Side::Buy {
        b.asks
    } else {
        b.bids
    }
}

/// The ladder that an order of `side` rests on.
pub open spec fn own_ladder(b: BookView, side: Side) -> Seq<LevelView> {
    if side == Side::Buy {
        b.bids
    } else {
        b.asks
    }
}

/// Matching a valid, new order against the book.
pub open spec fn matched(b: BookView, o: Order, now: u64) -> (Seq<LevelView>, Seq<Trade>, u64) {
    sweep(o, opposite_ladder(b, o.side), o.quantity, now)
}

/// What rests of an order with `rem` lots left.
pub open spec fn resting(o: Order, rem: u64, now: u64) -> Order {
    Order { quantity: rem, timestamp: now, ..o }
}

/// The book with the two ladders of `side`'s own and opposite sides.
pub open spec fn with_ladders(b: BookView, side: Side, own: Seq<LevelView>, opp: Seq<LevelView>) -> BookView {
    if side == Side::Buy {
        BookView { bids: own, asks: opp, next_seq: (b.next_seq + 1) as u64, seen: b.seen }
    } else {
        BookView { bids: opp, asks: own, next_seq: (b.next_seq + 1) as u64, seen: b.seen }
    }
}

/// The book after a valid, new order has been matched and what is left of
/// it, if it is a limit order, has rested; its id is then seen.
pub open spec fn placed(b: BookView, o: Order, now: u64) -> BookView {
    let m = matched(b, o, now);
    let own = if m.2 > 0 && o.order_type == OrderType::Limit {
        rest_in(own_ladder(b, o.side), o.side, resting(o, m.2, now))
    } else {
        own_ladder(b, o.side)
    };
    BookView { seen: b.seen.insert(o.id), ..with_ladders(b, o.side, own, m.0) }
}

/// The trades as events.
pub open spec fn trade_events(ts: Seq<Trade>) -> Seq<Event> {
    Seq::new(ts.len(), |i: int| Event::Trade { trade: ts[i] })
}

/// What becomes of a new order once matching is over.
pub open spec fn disposition(o: Order, rem: u64) -> Event {
    if rem == 0 {
        Event::OrderFilled { id: o.id }
    } else if o.order_type == OrderType::Limit {
        Event::OrderRested { id: o.id, side: o.side, price: o.price, quantity: rem }
    } else {
        Event::OrderCanceled { id: o.id, reason: CancelReason::MarketUnfilled, remaining: rem }
    }
}

/// The events of a valid, new order: accepted, its trades, its disposition.
pub open spec fn placed_events(b: BookView, o: Order, now: u64) -> Seq<Event> {
    let m = matched(b, o, now);
    seq![Event::OrderAccepted { id: o.id }] + trade_events(m.1) + seq![disposition(o, m.2)]
}

/// The book after a command.
pub open spec fn applied(b: BookView, cmd: Command, now: u64) -> BookView {
    let next = BookView { next_seq: (b.next_seq + 1) as u64, ..b };
    match cmd {
        Command::NewOrder(o) => if !order_valid(o) || b.seen.contains(o.id) {
            next
        } else {
            placed(b, o, now)
        },
        Command::CancelOrder { id, side, price } => if located(own_ladder(b, side), price, id) {
            with_ladders(b, side, without(own_ladder(b, side), price, id), opposite_ladder(b, side))
        } else {
            next
        },
    }
}

/// The events of a command.
pub open spec fn applied_events(b: BookView, cmd: Command, now: u64) -> Seq<Event> {
    match cmd {
        Command::NewOrder(o) => if !order_valid(o) {
            seq![Event::OrderRejected { id: o.id, reason: RejectReason::InvalidInput }]
        } else if b.seen.contains(o.id) {
            seq![Event::OrderRejected { id: o.id, reason: RejectReason::DuplicateId }]
        } else {
            placed_events(b, o, now)
        },
        Command::CancelOrder { id, side, price } => if located(own_ladder(b, side), price, id) {
            seq![
                Event::OrderCanceled {
                    id,
                    reason: CancelReason::Requested,
                    remaining: located_quantity(own_ladder(b, side), price, id),
                },
            ]
        } else {
            seq![Event::CancelRejected { id }]
        },
    }
}

/// The events stamped with sequence number `seq`.
pub open spec fn stamped(evs: Seq<Event>, seq: u64) -> Seq<JournalEvent> {
    Seq::new(evs.len(), |i: int| JournalEvent { seq, event: evs[i] })
}

impl OrderBook {
    /// The book's invariant.
    pub open spec fn wf(&self) -> bool {
        book_ok(self@)
    }

    /// An empty book whose first command gets sequence number 1.
    pub fn new() -> (r: OrderBook)
        ensures
            r@.bids.len() == 0,
            r@.asks.len() == 0,
            r@.next_seq == 1,
            r@.seen.is_empty(),
            r.wf(),
    {
        let r = OrderBook { bids: Vec::new(), asks: Vec::new(), next_seq: 1, seen: Vec::new() };
        assert(r@.seen =~= Set::<u64>::empty());
        r
    }

    /// The sequence number that the next command will get.
    pub fn next_seq(&self) -> (r: u64)
        ensures
            r == self@.next_seq,
    {
        self.next_seq
    }

    /// The number of resting orders.
    pub fn len(&self) -> (r: usize)
        requires
            order_count(self@.bids) + order_count(self@.asks) <= usize::MAX,
        ensures
            r == order_count(self@.bids) + order_count(self@.asks),
    {
        proof {
            lemma_order_count_mono(self@.bids, 0);
            lemma_order_count_mono(self@.asks, 0);
            assert(self@.bids.subrange(0, 0) =~= Seq::<LevelView>::empty());
            assert(self@.asks.subrange(0, 0) =~= Seq::<LevelView>::empty());
        }
        count_orders(&self.bids) + count_orders(&self.asks)
    }

    /// Whether no order rests.
    pub fn is_empty(&self) -> (r: bool)
        ensures
            r == (self@.bids.len() == 0 && self@.asks.len() == 0),
    {
        self.bids.len() == 0 && self.asks.len() == 0
    }

    /// A copy of the first `depth` levels of `side`'s ladder, in priority
    /// order.
    pub fn levels(&self, side: Side, depth: usize) -> (r: Vec<PriceLevel>)
        ensures
            ladder_view(r@) == own_ladder(self@, side).take(
                if depth < own_ladder(self@, side).len() { depth as int } else { own_ladder(self@, side).len() as int },
            ),
    {
        match side {
            Side::Buy => copy_levels(&self.bids, depth),
            Side::Sell => copy_levels(&self.asks, depth),
        }
    }

    /// The first `depth` levels of each side, bids then asks, as (price,
    /// aggregated quantity).
    pub fn snapshot(&self, depth: usize) -> (r: (Vec<(u64, u64)>, Vec<(u64, u64)>))
        requires
            quantities_fit(self@.bids),
            quantities_fit(self@.asks),
        ensures
            r.0@ == aggregated(self@.bids).take(if depth < self@.bids.len() { depth as int } else { self@.bids.len() as int }),
            r.1@ == aggregated(self@.asks).take(if depth < self@.asks.len() { depth as int } else { self@.asks.len() as int }),
    {
        (aggregate_levels(&self.bids, depth), aggregate_levels(&self.asks, depth))
    }

    /// The snapshot of `depth` levels, or `None` if some level's aggregated
    /// quantity does not fit in 64 bits.
    pub fn try_snapshot(&self, depth: usize) -> (r: Option<(Vec<(u64, u64)>, Vec<(u64, u64)>)>)
        ensures
            r is None <==> !(quantities_fit(self@.bids) && quantities_fit(self@.asks)),
            r matches Some(v) ==> v.0@ == aggregated(self@.bids).take(
                if depth < self@.bids.len() { depth as int } else { self@.bids.len() as int },
            ) && v.1@ == aggregated(self@.asks).take(
                if depth < self@.asks.len() { depth as int } else { self@.asks.len() as int },
            ),
    {
        if ladder_fits(&self.bids) && ladder_fits(&self.asks) {
            Some(self.snapshot(depth))
        } else {
            None
        }
    }

    /// Matches a new order and rests what is left of it: `apply` of
    /// `Command::NewOrder`.
    pub fn add_order(&mut self, order: Order, now: u64) -> (r: Vec<JournalEvent>)
        requires
            old(self).wf(),
            old(self)@.next_seq < u64::MAX,
        ensures
            final(self).wf(),
            final(self)@ == applied(old(self)@, Command::NewOrder(order), now),
            r@ == stamped(applied_events(old(self)@, Command::NewOrder(order), now), old(self)@.next_seq),
    {
        self.apply(Command::NewOrder(order), now)
    }

    /// Applies one command and returns its events, each stamped with the
    /// command's sequence number. `now` is the engine's clock, which
    /// stamps trades and resting orders.
    pub fn apply(&mut self, cmd: Command, now: u64) -> (r: Vec<JournalEvent>)
        requires
            old(self).wf(),
            old(self)@.next_seq < u64::MAX,
        ensures
            final(self).wf(),
            final(self)@ == applied(old(self)@, cmd, now),
            r@ == stamped(applied_events(old(self)@, cmd, now), old(self)@.next_seq),
    {
        let seq = self.next_seq;
        let ghost b0 = self@;
        let mut events: Vec<JournalEvent> = Vec::new();
        match cmd {
            Command::NewOrder(o) => {
                if o.quantity == 0 || (o.order_type == OrderType::Limit && o.price == 0) {
                    events.push(JournalEvent { seq, event: Event::OrderRejected { id: o.id, reason: RejectReason::InvalidInput } });
                    self.next_seq = seq + 1;
                    assert(events@ =~= stamped(applied_events(b0, cmd, now), seq));
                    return events;
                }
                if contains_id(&self.seen, o.id) {
                    events.push(JournalEvent { seq, event: Event::OrderRejected { id: o.id, reason: RejectReason::DuplicateId } });
                    self.next_seq = seq + 1;
                    assert(events@ =~= stamped(applied_events(b0, cmd, now), seq));
                    return events;
                }
                events = self.place(o, now);
            },
            Command::CancelOrder { id, side, price } => {
                let found = match side {
                    Side::Buy => remove_order(&mut self.bids, price, id),
                    Side::Sell => remove_order(&mut self.asks, price, id),
                };
                self.next_seq = seq + 1;
                match found {
                    Some(q) => events.push(JournalEvent { seq, event: Event::OrderCanceled { id, reason: CancelReason::Requested, remaining: q } }),
                    None => events.push(JournalEvent { seq, event: Event::CancelRejected { id } }),
                }
                assert(events@ =~= stamped(applied_events(b0, cmd, now), seq));
                proof {
                    law_apply_keeps_invariant(b0, cmd, now);
                }
            },
        }
        events
    }

    /// Matches a valid order whose id the book has not seen, and rests what is
    /// left of it if it is a limit order.
    fn place(&mut self, o: Order, now: u64) -> (r: Vec<JournalEvent>)
        requires
            old(self).wf(),
            old(self)@.next_seq < u64::MAX,
            order_valid(o),
            !old(self)@.seen.contains(o.id),
        ensures
            final(self).wf(),
            final(self)@ == placed(old(self)@, o, now),
            r@ == stamped(placed_events(old(self)@, o, now), old(self)@.next_seq),
    {
        let seq = self.next_seq;
        let ghost b0 = self@;
        let mut trades: Vec<Trade> = Vec::new();
        let rem = match o.side {
            Side::Buy => sweep_ladder(&o, &mut self.asks, o.quantity, now, &mut trades),
            Side::Sell => sweep_ladder(&o, &mut self.bids, o.quantity, now, &mut trades),
        };
        assert(trades@ =~= matched(b0, o, now).1);
        let mut events: Vec<JournalEvent> = Vec::new();
        events.push(JournalEvent { seq, event: Event::OrderAccepted { id: o.id } });
        let mut k: usize = 0;
        while k < trades.len()
            invariant
                k <= trades@.len(),
                events@ =~= stamped(seq![Event::OrderAccepted { id: o.id }] + trade_events(trades@.subrange(0, k as int)), seq),
            decreases trades@.len() - k,
        {
            events.push(JournalEvent { seq, event: Event::Trade { trade: trades[k] } });
            k = k + 1;
            assert(trades@.subrange(0, k as int) =~= trades@.subrange(0, k - 1).push(trades@[k - 1]));
        }
        assert(trades@.subrange(0, k as int) =~= trades@);
        let last = if rem == 0 {
            Event::OrderFilled { id: o.id }
        } else {
            match o.order_type {
                OrderType::Limit => {
                    let rest = Order { quantity: rem, timestamp: now, ..o };
                    match o.side {
                        Side::Buy => rest_order(&mut self.bids, Side::Buy, rest),
                        Side::Sell => rest_order(&mut self.asks, Side::Sell, rest),
                    }
                    Event::OrderRested { id: o.id, side: o.side, price: o.price, quantity: rem }
                },
                OrderType::Market => Event::OrderCanceled { id: o.id, reason: CancelReason::MarketUnfilled, remaining: rem },
            }
        };
        events.push(JournalEvent { seq, event: last });
        self.next_seq = seq + 1;
        let ghost s0 = self.seen@;
        self.seen.push(o.id);
        proof {
            assert forall|x: u64| self.seen@.contains(x) <==> (s0.contains(x) || x == o.id) by {
                if x == o.id {
                    assert(self.seen@[s0.len() as int] == x);
                }
                if s0.contains(x) {
                    let k = choose|k: int| 0 <= k < s0.len() && s0[k] == x;
                    assert(self.seen@[k] == x);
                }
                if self.seen@.contains(x) {
                    let k = choose|k: int| 0 <= k < self.seen@.len() && self.seen@[k] == x;
                    if k < s0.len() {
                        assert(s0[k] == x);
                    }
                }
            }
            assert(self@.seen =~= b0.seen.insert(o.id));
        }
        assert(events@ =~= stamped(placed_events(b0, o, now), seq));
        proof {
            lemma_placed_ok(b0, o, now);
        }
        events
    }
}

} // verus!
