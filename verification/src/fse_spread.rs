//! The decode table that a sequence of probabilities stands for, and the
//! bookkeeping that shows the spread to fill it exactly.

use vstd::prelude::*;
use vstd::arithmetic::power2::*;
use crate::fse_format::{valid_probabilities};
use crate::fse_layout::{
    count_of,
    lemma_count_of_constant,
    lemma_count_of_none,
    lemma_count_of_update,
    lemma_negative_count_bound,
    lemma_raw_position_next,
    lemma_raw_positions_differ,
    lemma_spread_order_count,
    lemma_spread_order_elements,
    lemma_spread_order_len,
    negative_count,
    positive_states,
    raw_position,
    spread_limit,
    spread_order,
    state_base_line,
    state_bits,
    FSEEntry,
};

verus! {

/// `n` states that no symbol has taken yet.
pub open spec fn fresh(n: nat) -> Seq<int> {
    Seq::new(n, |i: int| -1int)
}

/// The states below `limit` after `j` steps of the walk, each with the
/// symbol that took it or -1, and how many symbols of `order` are handed out.
pub open spec fn spread(order: Seq<int>, al: nat, limit: nat, j: nat) -> (Seq<int>, nat)
    decreases j,
{
    if j == 0 {
        (fresh(limit), 0nat)
    } else {
        let (layout, k) = spread(order, al, limit, (j - 1) as nat);
        let p = raw_position(al, (j - 1) as nat);
        if p < limit && k < order.len() {
            (layout.update(p as int, order[k as int]), k + 1)
        } else {
            (layout, k)
        }
    }
}

/// The symbol of every state below the limit, once the walk has gone round.
pub open spec fn symbol_layout(probs: Seq<i32>, al: nat) -> Seq<int> {
    spread(spread_order(probs, probs.len()), al, spread_limit(probs, al), pow2(al)).0
}

/// The states of a table of `size` states that the symbols of probability -1
/// among the first `n` take: the last state goes to the first such symbol,
/// the one below to the next.
pub open spec fn negative_layout(probs: Seq<i32>, size: nat, n: nat) -> Seq<int>
    decreases n,
{
    if n == 0 || n > probs.len() {
        fresh(size)
    } else {
        let prev = negative_layout(probs, size, (n - 1) as nat);
        if probs[n - 1] == -1 {
            prev.update(size - 1 - negative_count(probs, (n - 1) as nat), n - 1)
        } else {
            prev
        }
    }
}

/// State `t` of the table for `probs`.
pub open spec fn decode_entry(probs: Seq<i32>, al: nat, t: int) -> FSEEntry {
    if t >= spread_limit(probs, al) {
        FSEEntry {
            symbol: negative_layout(probs, pow2(al), probs.len())[t] as u8,
            base_line: 0,
            num_bits: al as u8,
        }
    } else {
        let layout = symbol_layout(probs, al);
        let symbol = layout[t];
        let number = count_of(layout, t as nat, symbol);
        FSEEntry {
            symbol: symbol as u8,
            base_line: state_base_line(al, probs[symbol] as nat, number) as u32,
            num_bits: state_bits(al, probs[symbol] as nat, number) as u8,
        }
    }
}

/// How many states each symbol has among those that are spread: its
/// probability where that is positive, none otherwise.
pub open spec fn state_counts(probs: Seq<i32>) -> Seq<u32> {
    Seq::new(probs.len(), |s: int| positive_states(probs[s]) as u32)
}

/// The table for `probs`, of `2^al` states.
pub open spec fn decode_table(probs: Seq<i32>, al: nat) -> Seq<FSEEntry> {
    Seq::new(pow2(al), |t: int| decode_entry(probs, al, t))
}

/// What is known in the middle of a walk: besides the states and the count
/// of symbols handed out, for every state the step that met it, or -1.
pub struct SpreadState {
    pub j: nat,
    pub k: nat,
    pub layout: Seq<int>,
    pub low: Seq<int>,
    pub high: Seq<int>,
}

/// Whether `g` is the state of the walk over the table for `probs` after
/// `g.j` steps, with every state met at most once.
pub open spec fn spread_ok(probs: Seq<i32>, al: nat, g: SpreadState) -> bool {
    let size = pow2(al);
    let limit = spread_limit(probs, al);
    let order = spread_order(probs, probs.len());
    &&& spread(order, al, limit, g.j) == (g.layout, g.k)
    &&& g.layout.len() == limit
    &&& g.low.len() == limit
    &&& g.high.len() == size - limit
    &&& forall|t: int|
        0 <= t < limit ==> -1 <= #[trigger] g.low[t] < g.j && (g.low[t] >= 0 ==> raw_position(
            al,
            g.low[t] as nat,
        ) == t)
    &&& forall|t: int|
        0 <= t < size - limit ==> -1 <= #[trigger] g.high[t] < g.j && (g.high[t] >= 0
            ==> raw_position(al, g.high[t] as nat) == limit + t)
    &&& forall|t: int|
        0 <= t < limit ==> -1 <= #[trigger] g.layout[t] < probs.len() && (g.layout[t] == -1 <==> g.low[t]
            == -1) && (g.layout[t] >= 0 ==> probs[g.layout[t]] > 0)
    &&& count_of(g.low, limit, -1) == limit - g.k
    &&& count_of(g.high, (size - limit) as nat, -1) == size - limit - (g.j - g.k)
    &&& forall|s: int| 0 <= s ==> #[trigger] count_of(g.layout, limit, s) == count_of(order, g.k, s)
}

/// The spread has as many states as its order has symbols.
pub proof fn lemma_spread_limit(probs: Seq<i32>, al: nat)
    requires
        valid_probabilities(probs, al),
    ensures
        spread_order(probs, probs.len()).len() == spread_limit(probs, al),
        spread_limit(probs, al) + negative_count(probs, probs.len()) == pow2(al),
{
    lemma_spread_order_len(probs, probs.len());
    lemma_negative_count_bound(probs, probs.len());
}

/// The walk before its first step.
pub open spec fn initial_spread(probs: Seq<i32>, al: nat) -> SpreadState {
    SpreadState {
        j: 0,
        k: 0,
        layout: fresh(spread_limit(probs, al)),
        low: fresh(spread_limit(probs, al)),
        high: fresh((pow2(al) - spread_limit(probs, al)) as nat),
    }
}

/// Before the first step.
pub proof fn lemma_spread_init(probs: Seq<i32>, al: nat) -> (g: SpreadState)
    requires
        valid_probabilities(probs, al),
    ensures
        spread_ok(probs, al, g),
        g == initial_spread(probs, al),
{
    let size = pow2(al);
    let limit = spread_limit(probs, al);
    let order = spread_order(probs, probs.len());
    lemma_spread_limit(probs, al);
    let g = initial_spread(probs, al);
    lemma_count_of_constant(g.low, limit, -1, -1);
    lemma_count_of_constant(g.high, (size - limit) as nat, -1, -1);
    assert forall|s: int| 0 <= s implies #[trigger] count_of(g.layout, limit, s) == count_of(
        order,
        g.k,
        s,
    ) by {
        lemma_count_of_constant(g.layout, limit, -1, s);
    }
    g
}

/// While symbols are left to hand out, the walk has not gone round.
pub proof fn lemma_spread_room(probs: Seq<i32>, al: nat, g: SpreadState)
    requires
        valid_probabilities(probs, al),
        spread_ok(probs, al, g),
        g.k < spread_limit(probs, al),
    ensures
        g.j < pow2(al),
        raw_position(al, g.j) < pow2(al),
{
    lemma_spread_limit(probs, al);
    lemma_raw_position_next(al, g.j);
}

/// A step onto a state of the symbols of probability -1: nothing is handed
/// out.
pub proof fn lemma_spread_skip(probs: Seq<i32>, al: nat, g: SpreadState) -> (g2: SpreadState)
    requires
        valid_probabilities(probs, al),
        spread_ok(probs, al, g),
        g.k < spread_limit(probs, al),
        raw_position(al, g.j) >= spread_limit(probs, al),
    ensures
        spread_ok(probs, al, g2),
        g2.j == g.j + 1,
        g2.k == g.k,
        g2.layout == g.layout,
{
    let size = pow2(al);
    let limit = spread_limit(probs, al);
    let order = spread_order(probs, probs.len());
    lemma_spread_limit(probs, al);
    lemma_spread_room(probs, al, g);
    let p = raw_position(al, g.j);
    let at = p - limit;
    let met = g.high[at];
    if met >= 0 {
        lemma_raw_positions_differ(al, met as nat, g.j);
    }
    let g2 = SpreadState {
        j: g.j + 1,
        k: g.k,
        layout: g.layout,
        low: g.low,
        high: g.high.update(at, g.j as int),
    };
    lemma_count_of_update(g.high, (size - limit) as nat, at, g.j as int, -1);
    assert(spread(order, al, limit, g2.j) == (g2.layout, g2.k));
    assert forall|t: int| 0 <= t < limit implies -1 <= #[trigger] g2.low[t] < g2.j && (g2.low[t]
        >= 0 ==> raw_position(al, g2.low[t] as nat) == t) by {
        assert(g2.low[t] == g.low[t]);
    }
    assert forall|t: int| 0 <= t < limit implies -1 <= #[trigger] g2.layout[t] < probs.len() && (
    g2.layout[t] == -1 <==> g2.low[t] == -1) && (g2.layout[t] >= 0 ==> probs[g2.layout[t]] > 0) by {
        assert(g2.layout[t] == g.layout[t]);
    }
    assert forall|s: int| 0 <= s implies #[trigger] count_of(g2.layout, limit, s) == count_of(
        order,
        g2.k,
        s,
    ) by {
        assert(count_of(g.layout, limit, s) == count_of(order, g.k, s));
    }
    g2
}

/// A step onto a state of the spread: the next symbol of the order takes it.
pub proof fn lemma_spread_place(probs: Seq<i32>, al: nat, g: SpreadState) -> (g2: SpreadState)
    requires
        valid_probabilities(probs, al),
        spread_ok(probs, al, g),
        g.k < spread_limit(probs, al),
        raw_position(al, g.j) < spread_limit(probs, al),
    ensures
        spread_ok(probs, al, g2),
        g2.j == g.j + 1,
        g2.k == g.k + 1,
        g2.layout == g.layout.update(
            raw_position(al, g.j) as int,
            spread_order(probs, probs.len())[g.k as int],
        ),
        g.layout[raw_position(al, g.j) as int] == -1,
{
    let size = pow2(al);
    let limit = spread_limit(probs, al);
    let order = spread_order(probs, probs.len());
    lemma_spread_limit(probs, al);
    lemma_spread_room(probs, al, g);
    let p = raw_position(al, g.j) as int;
    let met = g.low[p];
    if met >= 0 {
        lemma_raw_positions_differ(al, met as nat, g.j);
    }
    assert(g.layout[p] == -1);
    let symbol = order[g.k as int];
    lemma_spread_order_elements(probs, probs.len(), g.k as int);
    let g2 = SpreadState {
        j: g.j + 1,
        k: g.k + 1,
        layout: g.layout.update(p, symbol),
        low: g.low.update(p, g.j as int),
        high: g.high,
    };
    lemma_count_of_update(g.low, limit, p, g.j as int, -1);
    assert(spread(order, al, limit, g2.j) == (g2.layout, g2.k));
    assert forall|t: int| 0 <= t < size - limit implies -1 <= #[trigger] g2.high[t] < g2.j && (
    g2.high[t] >= 0 ==> raw_position(al, g2.high[t] as nat) == limit + t) by {
        assert(g2.high[t] == g.high[t]);
    }
    assert forall|t: int| 0 <= t < limit implies -1 <= #[trigger] g2.layout[t] < probs.len() && (
    g2.layout[t] == -1 <==> g2.low[t] == -1) && (g2.layout[t] >= 0 ==> probs[g2.layout[t]] > 0) by {
        if t != p {
            assert(g2.layout[t] == g.layout[t]);
            assert(g2.low[t] == g.low[t]);
        }
    }
    assert forall|s: int| 0 <= s implies #[trigger] count_of(g2.layout, limit, s) == count_of(
        order,
        g2.k,
        s,
    ) by {
        lemma_count_of_update(g.layout, limit, p, symbol, s);
        assert(count_of(g.layout, limit, s) == count_of(order, g.k, s));
    }
    g2
}

/// Once all symbols are handed out, further steps change nothing.
pub proof fn lemma_spread_stable(order: Seq<int>, al: nat, limit: nat, j: nat, j2: nat)
    requires
        j <= j2,
        spread(order, al, limit, j).1 >= order.len(),
    ensures
        spread(order, al, limit, j2) == spread(order, al, limit, j),
    decreases j2,
{
    if j < j2 {
        lemma_spread_stable(order, al, limit, j, (j2 - 1) as nat);
    }
}

/// Once all symbols are handed out, every state below the limit has its
/// symbol, and every symbol as many states as its probability says.
pub proof fn lemma_spread_done(probs: Seq<i32>, al: nat, g: SpreadState)
    requires
        valid_probabilities(probs, al),
        spread_ok(probs, al, g),
        g.k == spread_limit(probs, al),
    ensures
        g.layout == symbol_layout(probs, al),
        g.layout.len() == spread_limit(probs, al),
        forall|t: int|
            0 <= t < spread_limit(probs, al) ==> 0 <= #[trigger] g.layout[t] < probs.len()
                && probs[g.layout[t]] > 0,
        forall|s: int|
            0 <= s < probs.len() ==> #[trigger] count_of(g.layout, spread_limit(probs, al), s)
                == positive_states(probs[s]),
{
    let size = pow2(al);
    let limit = spread_limit(probs, al);
    let order = spread_order(probs, probs.len());
    lemma_spread_limit(probs, al);
    assert(g.j <= size);
    lemma_spread_stable(order, al, limit, g.j, size);
    lemma_count_of_none(g.low, limit, -1);
    assert forall|t: int| 0 <= t < limit implies 0 <= #[trigger] g.layout[t] < probs.len()
        && probs[g.layout[t]] > 0 by {
        assert(g.low[t] != -1);
    }
    assert forall|s: int| 0 <= s < probs.len() implies #[trigger] count_of(g.layout, limit, s)
        == positive_states(probs[s]) by {
        lemma_spread_order_count(probs, probs.len(), s);
    }
}

} // verus!

verus! {

/// The states of the symbols of probability -1 are as many as the table has.
pub proof fn lemma_negative_layout_len(probs: Seq<i32>, size: nat, n: nat)
    requires
        negative_count(probs, probs.len()) <= size,
    ensures
        negative_layout(probs, size, n).len() == size,
    decreases n,
{
    if n > 0 && n <= probs.len() {
        lemma_negative_layout_len(probs, size, (n - 1) as nat);
        crate::fse_layout::lemma_negative_count_monotone(probs, n, probs.len());
    }
}

} // verus!
