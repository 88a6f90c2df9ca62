//! Where the symbols of an FSE table stand, and what each state reads next.
//!
//! Symbols of probability -1 take the last states of the table, one each.
//! The others are spread over the states below: walking the table in steps
//! of a fixed odd width, each symbol takes as many of the states met as its
//! probability says. A symbol's states, taken by rising position, then share
//! out the table among them as base lines.

use vstd::prelude::*;
use vstd::arithmetic::power2::*;
use vstd::arithmetic::div_mod::*;
use crate::arith::{
    bit_length,
    is_power_of_two,
    lemma_bit_length_bounds,
    lemma_pow2_monotone,
};
use crate::fse_format::{
    total_states,
};

verus! {

/// One state of an FSE table: the symbol it stands for, and how the next
/// state is found, as `base_line` plus the next `num_bits` bits.
#[derive(Copy, Clone, Debug, PartialEq, Eq)]
pub struct FSEEntry {
    pub base_line: u32,
    pub num_bits: u8,
    pub symbol: u8,
}

/// Whether every state that can follow `e` lies in a table of `2^al` states.
pub open spec fn entry_in_table(e: FSEEntry, al: nat) -> bool {
    e.num_bits <= al && e.base_line + pow2(e.num_bits as nat) <= pow2(al)
}

/// How many of the first `n` entries of `s` are `x`.
pub open spec fn count_of(s: Seq<int>, n: nat, x: int) -> nat
    decreases n,
{
    if n == 0 || n > s.len() {
        0
    } else {
        count_of(s, (n - 1) as nat, x) + if s[n - 1] == x {
            1nat
        } else {
            0nat
        }
    }
}

/// No more entries are counted than there are.
pub proof fn lemma_count_of_bound(s: Seq<int>, n: nat, x: int)
    ensures
        count_of(s, n, x) <= n,
    decreases n,
{
    if n > 0 && n <= s.len() {
        lemma_count_of_bound(s, (n - 1) as nat, x);
    }
}

/// A longer prefix counts no fewer entries.
pub proof fn lemma_count_of_monotone(s: Seq<int>, n1: nat, n2: nat, x: int)
    requires
        n1 <= n2 <= s.len(),
    ensures
        count_of(s, n1, x) <= count_of(s, n2, x),
    decreases n2,
{
    if n1 < n2 {
        lemma_count_of_monotone(s, n1, (n2 - 1) as nat, x);
    }
}

/// An entry that is `x` is counted once it lies in the prefix.
pub proof fn lemma_count_of_holds(s: Seq<int>, n: nat, i: int, x: int)
    requires
        0 <= i < n <= s.len(),
        s[i] == x,
    ensures
        count_of(s, i as nat, x) + 1 <= count_of(s, n, x),
{
    assert(count_of(s, (i + 1) as nat, x) == count_of(s, i as nat, x) + 1);
    lemma_count_of_monotone(s, (i + 1) as nat, n, x);
}

/// What writing `v` at `i` does to the count of `x`.
pub proof fn lemma_count_of_update(s: Seq<int>, n: nat, i: int, v: int, x: int)
    requires
        n <= s.len(),
        0 <= i < s.len(),
    ensures
        count_of(s.update(i, v), n, x) + (if i < n && s[i] == x {
            1nat
        } else {
            0nat
        }) == count_of(s, n, x) + (if i < n && v == x {
            1nat
        } else {
            0nat
        }),
    decreases n,
{
    if n > 0 {
        lemma_count_of_update(s, (n - 1) as nat, i, v, x);
    }
}

/// Where nothing is `x`, nothing is counted, and the other way round.
pub proof fn lemma_count_of_none(s: Seq<int>, n: nat, x: int)
    requires
        n <= s.len(),
    ensures
        count_of(s, n, x) == 0 <==> (forall|i: int| 0 <= i < n ==> #[trigger] s[i] != x),
    decreases n,
{
    if n > 0 {
        lemma_count_of_none(s, (n - 1) as nat, x);
        if count_of(s, n, x) == 0 {
            assert forall|i: int| 0 <= i < n implies #[trigger] s[i] != x by {
                if i < n - 1 {
                }
            }
        }
    }
}

/// Where everything is `v`, everything is counted for `v` and nothing else.
pub proof fn lemma_count_of_constant(s: Seq<int>, n: nat, v: int, x: int)
    requires
        n <= s.len(),
        forall|i: int| 0 <= i < n ==> #[trigger] s[i] == v,
    ensures
        count_of(s, n, x) == if x == v {
            n
        } else {
            0
        },
    decreases n,
{
    if n > 0 {
        lemma_count_of_constant(s, (n - 1) as nat, v, x);
    }
}

/// The count over a prefix depends on that prefix alone.
pub proof fn lemma_count_of_same_prefix(a: Seq<int>, b: Seq<int>, n: nat, x: int)
    requires
        n <= a.len(),
        n <= b.len(),
        forall|i: int| 0 <= i < n ==> a[i] == b[i],
    ensures
        count_of(a, n, x) == count_of(b, n, x),
    decreases n,
{
    if n > 0 {
        lemma_count_of_same_prefix(a, b, (n - 1) as nat, x);
    }
}

/// The count over two sequences joined, where the second holds only `v`.
pub proof fn lemma_count_of_append_run(a: Seq<int>, b: Seq<int>, v: int, x: int)
    requires
        forall|i: int| 0 <= i < b.len() ==> #[trigger] b[i] == v,
    ensures
        count_of(a + b, (a + b).len(), x) == count_of(a, a.len(), x) + if x == v {
            b.len()
        } else {
            0
        },
    decreases b.len(),
{
    if b.len() == 0 {
        assert(a + b =~= a);
    } else {
        let b0 = b.drop_last();
        lemma_count_of_append_run(a, b0, v, x);
        lemma_count_of_same_prefix(a + b, a + b0, (a + b0).len(), x);
        assert((a + b)[(a + b).len() - 1] == b[b.len() - 1]);
    }
}

/// How many of the first `n` symbols have the probability -1.
pub open spec fn negative_count(probs: Seq<i32>, n: nat) -> nat
    decreases n,
{
    if n == 0 || n > probs.len() {
        0
    } else {
        negative_count(probs, (n - 1) as nat) + if probs[n - 1] == -1 {
            1nat
        } else {
            0nat
        }
    }
}

/// The first state that a symbol of probability -1 takes; the symbols that
/// are spread take the states below it.
pub open spec fn spread_limit(probs: Seq<i32>, al: nat) -> nat {
    (pow2(al) - negative_count(probs, probs.len())) as nat
}

/// States that a symbol takes in the spread.
pub open spec fn positive_states(prob: i32) -> nat {
    if prob > 0 {
        prob as nat
    } else {
        0
    }
}

/// The symbols in the order in which the spread hands them out: each of the
/// first `n` symbols as often as its probability says.
pub open spec fn spread_order(probs: Seq<i32>, n: nat) -> Seq<int>
    decreases n,
{
    if n == 0 || n > probs.len() {
        Seq::empty()
    } else {
        spread_order(probs, (n - 1) as nat) + Seq::new(
            positive_states(probs[n - 1]),
            |i: int| n - 1,
        )
    }
}

/// The order is as long as the states that are not taken by symbols of
/// probability -1.
pub proof fn lemma_spread_order_len(probs: Seq<i32>, n: nat)
    requires
        n <= probs.len(),
        forall|i: int| 0 <= i < probs.len() ==> -1 <= #[trigger] probs[i],
    ensures
        spread_order(probs, n).len() + negative_count(probs, n) == total_states(probs, n),
    decreases n,
{
    if n > 0 {
        lemma_spread_order_len(probs, (n - 1) as nat);
    }
}

/// The order of more symbols begins with the order of fewer.
pub proof fn lemma_spread_order_prefix(probs: Seq<i32>, n1: nat, n2: nat)
    requires
        n1 <= n2 <= probs.len(),
    ensures
        spread_order(probs, n1).len() <= spread_order(probs, n2).len(),
        forall|i: int|
            0 <= i < spread_order(probs, n1).len() ==> spread_order(probs, n2)[i] == spread_order(
                probs,
                n1,
            )[i],
    decreases n2,
{
    if n1 < n2 {
        lemma_spread_order_prefix(probs, n1, (n2 - 1) as nat);
    }
}

/// Where a symbol stands in the order.
pub proof fn lemma_spread_order_index(probs: Seq<i32>, s: nat, c: nat)
    requires
        s < probs.len(),
        c < positive_states(probs[s as int]),
    ensures
        spread_order(probs, s).len() + c < spread_order(probs, probs.len()).len(),
        spread_order(probs, probs.len())[(spread_order(probs, s).len() + c) as int] == s,
{
    let upto = spread_order(probs, s);
    let with = spread_order(probs, s + 1);
    assert(with == upto + Seq::new(positive_states(probs[s as int]), |i: int| s as int));
    assert(with[(upto.len() + c) as int] == s);
    lemma_spread_order_prefix(probs, s + 1, probs.len());
}

/// The order holds only symbols that have a positive probability.
pub proof fn lemma_spread_order_elements(probs: Seq<i32>, n: nat, i: int)
    requires
        n <= probs.len(),
        0 <= i < spread_order(probs, n).len(),
    ensures
        0 <= spread_order(probs, n)[i] < n,
        probs[spread_order(probs, n)[i]] > 0,
    decreases n,
{
    if n > 0 {
        if i < spread_order(probs, (n - 1) as nat).len() {
            lemma_spread_order_elements(probs, (n - 1) as nat, i);
        }
    }
}

/// The order holds each symbol as often as its probability says.
pub proof fn lemma_spread_order_count(probs: Seq<i32>, n: nat, s: int)
    requires
        n <= probs.len(),
        0 <= s,
    ensures
        count_of(spread_order(probs, n), spread_order(probs, n).len(), s) == if s < n {
            positive_states(probs[s])
        } else {
            0
        },
    decreases n,
{
    if n > 0 {
        lemma_spread_order_count(probs, (n - 1) as nat, s);
        let run = Seq::new(positive_states(probs[n - 1]), |i: int| n - 1);
        lemma_count_of_append_run(spread_order(probs, (n - 1) as nat), run, n - 1, s);
    }
}

/// The symbols of probability -1 are among all states.
pub proof fn lemma_negative_count_bound(probs: Seq<i32>, n: nat)
    requires
        n <= probs.len(),
    ensures
        negative_count(probs, n) <= total_states(probs, n),
        negative_count(probs, n) <= n,
    decreases n,
{
    if n > 0 {
        lemma_negative_count_bound(probs, (n - 1) as nat);
    }
}

/// Width of the steps in which the spread walks a table of `2^al` states.
pub open spec fn spread_step(al: nat) -> nat {
    pow2((al - 1) as nat) + pow2((al - 3) as nat) + 3
}

/// The state that the walk stands on after `j` steps.
pub open spec fn raw_position(al: nat, j: nat) -> nat {
    (j * spread_step(al)) % pow2(al)
}

/// An odd factor takes no part in a product's being a multiple of `2^k`.
pub proof fn lemma_odd_factor(d: nat, s: nat, k: nat)
    requires
        s % 2 == 1,
        (d * s) % pow2(k) == 0,
    ensures
        d % pow2(k) == 0,
    decreases k,
{
    lemma2_to64();
    if k > 0 {
        let p = pow2((k - 1) as nat);
        lemma_pow2_unfold(k);
        lemma_pow2_pos((k - 1) as nat);
        let prod = d * s;
        let q = prod / (2 * p);
        lemma_fundamental_div_mod(prod as int, (2 * p) as int);
        assert(prod == 2 * (p * q)) by (nonlinear_arith)
            requires
                prod == (2 * p) * q + 0,
        ;
        let a = d / 2;
        let b = s / 2;
        if d % 2 == 1 {
            assert(prod == 2 * (2 * a * b + a + b) + 1) by (nonlinear_arith)
                requires
                    prod == d * s,
                    d == 2 * a + 1,
                    s == 2 * b + 1,
            ;
            assert(false) by (nonlinear_arith)
                requires
                    prod == 2 * (2 * a * b + a + b) + 1,
                    prod == 2 * (p * q),
            ;
        }
        assert(a * s == q * p) by (nonlinear_arith)
            requires
                d == 2 * a,
                d * s == 2 * (p * q),
        ;
        lemma_mod_multiples_basic(q as int, p as int);
        lemma_odd_factor(a, s, (k - 1) as nat);
        let c = a / p;
        lemma_fundamental_div_mod(a as int, p as int);
        assert(d == c * (2 * p)) by (nonlinear_arith)
            requires
                d == 2 * a,
                a == p * c + 0,
        ;
        lemma_mod_multiples_basic(c as int, (2 * p) as int);
    }
}

/// The step is odd and narrower than the table.
pub proof fn lemma_spread_step(al: nat)
    requires
        al >= 4,
    ensures
        spread_step(al) % 2 == 1,
        spread_step(al) < pow2(al),
{
    lemma_pow2_unfold(al);
    lemma_pow2_unfold((al - 1) as nat);
    lemma_pow2_unfold((al - 2) as nat);
    lemma_pow2_unfold((al - 3) as nat);
    lemma_pow2_monotone(0, (al - 4) as nat);
    lemma2_to64();
}

/// The walk meets no state twice before it has met them all.
pub proof fn lemma_raw_positions_differ(al: nat, i: nat, j: nat)
    requires
        al >= 4,
        i < j < pow2(al),
    ensures
        raw_position(al, i) != raw_position(al, j),
{
    let s = spread_step(al);
    let m = pow2(al);
    lemma_spread_step(al);
    if raw_position(al, i) == raw_position(al, j) {
        lemma_mod_equivalence((j * s) as int, (i * s) as int, m as int);
        let d = (j - i) as nat;
        assert(d * s == j * s - i * s) by (nonlinear_arith)
            requires
                d == j - i,
        ;
        lemma_odd_factor(d, s, al);
        lemma_small_mod(d, m);
    }
}

/// One more step of the walk.
pub proof fn lemma_raw_position_next(al: nat, j: nat)
    requires
        al >= 4,
    ensures
        raw_position(al, j + 1) == (raw_position(al, j) + spread_step(al)) % pow2(al),
        raw_position(al, j) < pow2(al),
        raw_position(al, 0) == 0,
{
    let s = spread_step(al);
    let m = pow2(al);
    lemma_spread_step(al);
    assert((j + 1) * s == j * s + s) by (nonlinear_arith);
    lemma_add_mod_noop((j * s) as int, s as int, m as int);
    lemma_small_mod(s, m);
    assert(0 * s == 0) by (nonlinear_arith);
    lemma_small_mod(0, m);
    lemma_mod_bound((j * s) as int, m as int);
}

/// The exponent of the least power of two that is no less than `p`: the
/// table is cut into that many slices for a symbol of `p` states.
pub open spec fn slices_log(p: nat) -> nat {
    if is_power_of_two(p) {
        (bit_length(p) - 1) as nat
    } else {
        bit_length(p)
    }
}

/// How many states of a symbol of `p` states get two slices each.
pub open spec fn double_states(p: nat) -> nat {
    (pow2(slices_log(p)) - p) as nat
}

/// States in one slice.
pub open spec fn slice_width(al: nat, p: nat) -> nat {
    pow2((al - slices_log(p)) as nat)
}

/// Bits that state number `c` of a symbol of `p` states reads to find the
/// next state.
pub open spec fn state_bits(al: nat, p: nat, c: nat) -> nat {
    if c < double_states(p) {
        (al - slices_log(p) + 1) as nat
    } else {
        (al - slices_log(p)) as nat
    }
}

/// The least state that can follow state number `c` of a symbol of `p`
/// states. The states of two slices come first by number and stand behind the
/// others in the table.
pub open spec fn state_base_line(al: nat, p: nat, c: nat) -> nat {
    if c < double_states(p) {
        ((p - double_states(p)) * slice_width(al, p) + c * slice_width(al, p) * 2) as nat
    } else {
        ((c - double_states(p)) * slice_width(al, p)) as nat
    }
}

/// The slices of a symbol cover no more than the table.
pub proof fn lemma_state_in_table(al: nat, p: nat, c: nat)
    requires
        1 <= p <= pow2(al),
        c < p,
    ensures
        slices_log(p) <= al,
        p <= pow2(slices_log(p)) < 2 * p,
        state_bits(al, p, c) <= al,
        state_base_line(al, p, c) + pow2(state_bits(al, p, c)) <= pow2(al),
        c < double_states(p) ==> state_base_line(al, p, c) == (p - double_states(p))
            * slice_width(al, p) + c * slice_width(al, p) * 2,
        c >= double_states(p) ==> state_base_line(al, p, c) == (c - double_states(p))
            * slice_width(al, p),
{
    let e = slices_log(p);
    lemma_bit_length_bounds(p);
    lemma_pow2_unfold(bit_length(p));
    assert(p <= pow2(e) < 2 * p);
    if e > al {
        lemma_pow2_monotone(al + 1, e);
        lemma_pow2_unfold(al + 1);
    }
    let w = slice_width(al, p);
    let d = double_states(p);
    let full = pow2(e);
    lemma_pow2_adds((al - e) as nat, e);
    assert(w * full == pow2(al));
    lemma_pow2_pos((al - e) as nat);
    if c < d {
        if e == 0 {
            lemma2_to64();
        }
        lemma_pow2_unfold((al - e + 1) as nat);
        assert((p - d) * w + c * w * 2 + 2 * w <= w * full) by (nonlinear_arith)
            requires
                c + 1 <= d,
                d + p == full,
                d < p,
                w > 0,
        ;
        assert((p - d) * w + c * w * 2 >= 0) by (nonlinear_arith)
            requires
                d < p,
                w > 0,
        ;
    } else {
        assert((c - d) * w + w <= w * full) by (nonlinear_arith)
            requires
                d <= c < p,
                p <= full,
                w > 0,
        ;
        assert((c - d) * w >= 0) by (nonlinear_arith)
            requires
                d <= c,
                w > 0,
        ;
    }
}

} // verus!

verus! {

/// A longer prefix holds no fewer symbols of probability -1.
pub proof fn lemma_negative_count_monotone(probs: Seq<i32>, n1: nat, n2: nat)
    requires
        n1 <= n2 <= probs.len(),
    ensures
        negative_count(probs, n1) <= negative_count(probs, n2),
    decreases n2,
{
    if n1 < n2 {
        lemma_negative_count_monotone(probs, n1, (n2 - 1) as nat);
    }
}

} // verus!
