//! The canonical Huffman code that a sequence of weights stands for.
//!
//! A symbol of weight `w > 0` owns `2^(w-1)` adjoining slots of the decode
//! table. Symbols are laid out by rising weight, and by rising symbol number
//! within one weight. The last symbol's weight is not written down: it is the
//! one that fills the table up to a power of two.

use vstd::prelude::*;
use vstd::arithmetic::power2::*;
use crate::arith::{bit_length, is_power_of_two, lemma_bit_length_bounds};
use crate::errors::HuffmanTableError;

verus! {

/// The longest code, in bits, that a table may hold; no weight is above it.
pub const MAX_MAX_NUM_BITS: u8 = 11;

/// The largest number of weights that a table description may hold.
pub const MAX_WEIGHTS: usize = 255;

/// One slot of the decode table: the symbol that a code starting with this
/// slot's bits stands for, and the length of that code.
#[derive(Copy, Clone, Debug, PartialEq, Eq)]
pub struct Entry {
    pub symbol: u8,
    pub num_bits: u8,
}

/// Number of table slots that a symbol of weight `w` owns.
pub open spec fn weight_slots(w: u8) -> nat {
    if w == 0 {
        0
    } else {
        pow2((w - 1) as nat)
    }
}

/// Slots owned by those of the first `n` symbols whose weight is in
/// `lo..hi`.
pub open spec fn class_slots(ws: Seq<u8>, n: nat, lo: int, hi: int) -> nat
    decreases n,
{
    if n == 0 || n > ws.len() {
        0
    } else {
        class_slots(ws, (n - 1) as nat, lo, hi) + if lo <= ws[n - 1] < hi {
            weight_slots(ws[n - 1])
        } else {
            0
        }
    }
}

/// How many of the first `n` symbols have weight `w`.
pub open spec fn count_weight(ws: Seq<u8>, n: nat, w: int) -> nat
    decreases n,
{
    if n == 0 || n > ws.len() {
        0
    } else {
        count_weight(ws, (n - 1) as nat, w) + if ws[n - 1] == w {
            1nat
        } else {
            0nat
        }
    }
}

/// Slots owned by all symbols together.
pub open spec fn weight_sum(ws: Seq<u8>) -> nat {
    class_slots(ws, ws.len(), 0, 256)
}

/// Length of the longest code: the bit length of the written weights' sum.
pub open spec fn max_bits(ws: Seq<u8>) -> nat {
    bit_length(weight_sum(ws))
}

/// What the written weights leave of a table of `2^max_bits` slots.
pub open spec fn leftover(ws: Seq<u8>) -> nat {
    (pow2(max_bits(ws)) - weight_sum(ws)) as nat
}

/// Weight of the last symbol, the one that takes the leftover.
pub open spec fn last_weight(ws: Seq<u8>) -> nat {
    bit_length(leftover(ws))
}

/// The written weights followed by the last symbol's weight.
pub open spec fn all_weights(ws: Seq<u8>) -> Seq<u8> {
    ws.push(last_weight(ws) as u8)
}

/// Code length of a symbol of weight `w` where the longest code has `m`
/// bits. A symbol of weight zero has no code.
pub open spec fn code_length(m: nat, w: u8) -> nat {
    if w == 0 {
        0
    } else {
        (m + 1 - w) as nat
    }
}

/// Code lengths of all symbols, the last one included.
pub open spec fn code_lengths(ws: Seq<u8>) -> Seq<u8> {
    Seq::new(ws.len() + 1, |i: int| code_length(max_bits(ws), all_weights(ws)[i]) as u8)
}

/// The weight that a code of `b` bits stands for where the longest code has
/// `m` bits; a symbol without a code has the weight 0.
pub open spec fn weight_of_length(m: nat, b: int) -> int {
    if b == 0 {
        0
    } else {
        m + 1 - b
    }
}

/// How many symbols, the last one with them, have a code of each length from
/// 0, for no code, to the longest.
pub open spec fn length_ranks(ws: Seq<u8>) -> Seq<u32> {
    Seq::new(
        max_bits(ws) + 1,
        |b: int|
            count_weight(
                all_weights(ws),
                all_weights(ws).len(),
                weight_of_length(max_bits(ws), b),
            ) as u32,
    )
}

/// For each code length, the first slot behind the symbols whose codes are
/// of that length or longer. For the length 0 that is the end of the table.
pub open spec fn rank_ends(ws: Seq<u8>) -> Seq<usize> {
    Seq::new(
        max_bits(ws) + 1,
        |b: int|
            class_slots(all_weights(ws), all_weights(ws).len(), 0, max_bits(ws) + 2 - b) as usize,
    )
}

/// First slot of symbol `i`: behind all symbols of lower weight and behind
/// the earlier symbols of its own weight.
pub open spec fn run_start(aw: Seq<u8>, i: int) -> nat {
    class_slots(aw, aw.len(), 0, aw[i] as int) + class_slots(
        aw,
        i as nat,
        aw[i] as int,
        aw[i] + 1,
    )
}

/// Whether slot `t` belongs to symbol `i`.
pub open spec fn in_run(aw: Seq<u8>, i: int, t: int) -> bool {
    &&& 0 <= i < aw.len()
    &&& aw[i] > 0
    &&& run_start(aw, i) <= t < run_start(aw, i) + weight_slots(aw[i])
}

/// Whether `e` is what slot `t` of the table for `aw` holds, where the
/// longest code has `m` bits.
pub open spec fn entry_matches(aw: Seq<u8>, m: nat, t: int, e: Entry) -> bool {
    &&& in_run(aw, e.symbol as int, t)
    &&& 1 <= aw[e.symbol as int] <= m
    &&& e.num_bits == m + 1 - aw[e.symbol as int]
}

/// Whether `decode` is the decode table of the written weights `ws`.
pub open spec fn table_matches(ws: Seq<u8>, decode: Seq<Entry>) -> bool {
    &&& decode.len() == pow2(max_bits(ws))
    &&& forall|t: int|
        0 <= t < decode.len() ==> entry_matches(
            all_weights(ws),
            max_bits(ws),
            t,
            #[trigger] decode[t],
        )
}

/// The first weight from position `from` on that is above the limit.
pub open spec fn first_heavy(ws: Seq<u8>, from: nat) -> Option<u8>
    decreases ws.len() - from,
{
    if from >= ws.len() {
        None
    } else if ws[from as int] > MAX_MAX_NUM_BITS {
        Some(ws[from as int])
    } else {
        first_heavy(ws, from + 1)
    }
}

/// Why no table can be built from `ws`, if that is so. The checks are made
/// in this order.
pub open spec fn weights_error(ws: Seq<u8>) -> Option<HuffmanTableError> {
    if ws.len() > MAX_WEIGHTS {
        Some(HuffmanTableError::TooManyWeights { got: ws.len() as usize })
    } else if first_heavy(ws, 0) is Some {
        Some(HuffmanTableError::WeightBiggerThanMaxNumBits { got: first_heavy(ws, 0).unwrap() })
    } else if weight_sum(ws) == 0 {
        Some(HuffmanTableError::MissingWeights)
    } else if !is_power_of_two(leftover(ws)) {
        Some(HuffmanTableError::LeftoverIsNotAPowerOf2 { got: leftover(ws) as u32 })
    } else if max_bits(ws) > MAX_MAX_NUM_BITS {
        Some(HuffmanTableError::MaxBitsTooHigh { got: max_bits(ws) as u8 })
    } else {
        None
    }
}

/// A longer prefix of the symbols owns no fewer slots.
pub proof fn lemma_class_slots_monotone(ws: Seq<u8>, n1: nat, n2: nat, lo: int, hi: int)
    requires
        n1 <= n2 <= ws.len(),
    ensures
        class_slots(ws, n1, lo, hi) <= class_slots(ws, n2, lo, hi),
    decreases n2,
{
    if n1 < n2 {
        lemma_class_slots_monotone(ws, n1, (n2 - 1) as nat, lo, hi);
    }
}

/// The slots of a range of weights are those of its two halves together.
pub proof fn lemma_class_slots_split(ws: Seq<u8>, n: nat, lo: int, mid: int, hi: int)
    requires
        lo <= mid <= hi,
    ensures
        class_slots(ws, n, lo, hi) == class_slots(ws, n, lo, mid) + class_slots(ws, n, mid, hi),
    decreases n,
{
    if n > 0 && n <= ws.len() {
        lemma_class_slots_split(ws, (n - 1) as nat, lo, mid, hi);
    }
}

/// Where no symbol with a weight is in the range, the range owns no slot.
pub proof fn lemma_class_slots_empty(ws: Seq<u8>, n: nat, lo: int, hi: int)
    requires
        n <= ws.len(),
        forall|i: int| 0 <= i < n ==> !(lo <= #[trigger] ws[i] < hi) || ws[i] == 0,
    ensures
        class_slots(ws, n, lo, hi) == 0,
    decreases n,
{
    if n > 0 {
        lemma_class_slots_empty(ws, (n - 1) as nat, lo, hi);
    }
}

/// The slots and the count of a prefix depend on that prefix alone.
pub proof fn lemma_class_slots_same_prefix(a: Seq<u8>, b: Seq<u8>, n: nat, lo: int, hi: int)
    requires
        n <= a.len(),
        n <= b.len(),
        forall|i: int| 0 <= i < n ==> a[i] == b[i],
    ensures
        class_slots(a, n, lo, hi) == class_slots(b, n, lo, hi),
        count_weight(a, n, lo) == count_weight(b, n, lo),
    decreases n,
{
    if n > 0 {
        lemma_class_slots_same_prefix(a, b, (n - 1) as nat, lo, hi);
    }
}

/// The symbols of one weight own as many slots as there are of them, times
/// the slots of one.
pub proof fn lemma_class_slots_single(ws: Seq<u8>, n: nat, w: u8)
    requires
        n <= ws.len(),
    ensures
        class_slots(ws, n, w as int, w + 1) == count_weight(ws, n, w as int) * weight_slots(w),
        count_weight(ws, n, w as int) <= n,
    decreases n,
{
    if n > 0 {
        lemma_class_slots_single(ws, (n - 1) as nat, w);
        let c = count_weight(ws, (n - 1) as nat, w as int);
        let x = weight_slots(w);
        assert((c + 1) * x == c * x + x) by (nonlinear_arith);
    } else {
        assert(0 * weight_slots(w) == 0) by (nonlinear_arith);
    }
}

/// A symbol's slots are among those of any class and prefix that hold it.
pub proof fn lemma_class_slots_holds(ws: Seq<u8>, n: nat, lo: int, hi: int, i: int)
    requires
        0 <= i < n <= ws.len(),
        lo <= ws[i] < hi,
    ensures
        class_slots(ws, i as nat, lo, hi) + weight_slots(ws[i]) <= class_slots(ws, n, lo, hi),
{
    assert(class_slots(ws, (i + 1) as nat, lo, hi) == class_slots(ws, i as nat, lo, hi)
        + weight_slots(ws[i]));
    lemma_class_slots_monotone(ws, (i + 1) as nat, n, lo, hi);
}

/// No weight is above the exponent of a power of two that bounds the slots.
pub proof fn lemma_weight_below_exponent(w: u8, m: nat)
    requires
        weight_slots(w) <= pow2(m),
    ensures
        w <= m + 1,
        weight_slots(w) < pow2(m) ==> w <= m,
{
    if w > m + 1 {
        lemma_pow2_strictly_increases(m, (w - 1) as nat);
    }
    if w == m + 1 {
    }
}

/// What holds of weights from which a table can be built.
pub proof fn lemma_valid_weights(ws: Seq<u8>)
    requires
        weights_error(ws) is None,
    ensures
        1 <= ws.len() <= MAX_WEIGHTS,
        1 <= max_bits(ws) <= MAX_MAX_NUM_BITS,
        1 <= last_weight(ws) <= max_bits(ws),
        leftover(ws) == weight_slots(last_weight(ws) as u8),
        weight_sum(ws) + leftover(ws) == pow2(max_bits(ws)),
        forall|i: int| 0 <= i < ws.len() ==> #[trigger] ws[i] <= max_bits(ws),
        forall|i: int|
            0 <= i <= ws.len() ==> #[trigger] all_weights(ws)[i] <= max_bits(ws),
        class_slots(all_weights(ws), (ws.len() + 1) as nat, 0, 256) == pow2(max_bits(ws)),
{
    let sum = weight_sum(ws);
    let m = max_bits(ws);
    let left = leftover(ws);
    let lw = last_weight(ws);
    let aw = all_weights(ws);
    lemma_bit_length_bounds(sum);
    lemma_pow2_unfold(m);
    assert(0 < left <= pow2((m - 1) as nat));
    lemma_bit_length_bounds(left);
    assert(left == pow2((lw - 1) as nat));
    if lw > m {
        lemma_pow2_strictly_increases((m - 1) as nat, (lw - 1) as nat);
    }
    assert forall|i: int| 0 <= i < ws.len() implies #[trigger] ws[i] <= m by {
        lemma_class_slots_holds(ws, ws.len(), 0, 256, i);
        lemma_weight_below_exponent(ws[i], m);
    }
    lemma_class_slots_same_prefix(aw, ws, ws.len(), 0, 256);
    assert(class_slots(aw, (ws.len() + 1) as nat, 0, 256) == class_slots(aw, ws.len(), 0, 256)
        + weight_slots(aw[ws.len() as int]));
}

/// Two symbols never share a slot.
pub proof fn lemma_runs_disjoint(aw: Seq<u8>, i: int, j: int, t: int)
    requires
        in_run(aw, i, t),
        in_run(aw, j, t),
    ensures
        i == j,
{
    if i != j {
        if aw[i] == aw[j] {
            let w = aw[i] as int;
            if i < j {
                lemma_class_slots_holds(aw, j as nat, w, w + 1, i);
            } else {
                lemma_class_slots_holds(aw, i as nat, w, w + 1, j);
            }
        } else {
            let (a, b) = if aw[i] < aw[j] {
                (i, j)
            } else {
                (j, i)
            };
            let wa = aw[a] as int;
            let wb = aw[b] as int;
            lemma_class_slots_holds(aw, aw.len(), wa, wa + 1, a);
            lemma_class_slots_split(aw, aw.len(), 0, wa, wa + 1);
            lemma_class_slots_split(aw, aw.len(), 0, wa + 1, wb);
        }
    }
}

/// Every slot of a symbol lies inside the table.
pub proof fn lemma_run_in_table(aw: Seq<u8>, i: int, t: int)
    requires
        in_run(aw, i, t),
    ensures
        0 <= t < class_slots(aw, aw.len(), 0, 256),
{
    let w = aw[i] as int;
    lemma_class_slots_holds(aw, aw.len(), w, w + 1, i);
    lemma_class_slots_split(aw, aw.len(), 0, w, w + 1);
    lemma_class_slots_split(aw, aw.len(), 0, w + 1, 256);
}

/// The weight whose symbols own slot `t`, among the weights below `hi`.
proof fn lemma_find_class(aw: Seq<u8>, t: int, hi: int) -> (w: int)
    requires
        0 <= t < class_slots(aw, aw.len(), 0, hi),
        0 <= hi <= 256,
    ensures
        0 <= w < hi,
        class_slots(aw, aw.len(), 0, w) <= t < class_slots(aw, aw.len(), 0, w + 1),
    decreases hi,
{
    if hi == 0 {
        lemma_class_slots_empty(aw, aw.len(), 0, 0);
        0
    } else if t >= class_slots(aw, aw.len(), 0, hi - 1) {
        hi - 1
    } else {
        lemma_find_class(aw, t, hi - 1)
    }
}

/// The symbol of weight `w` that owns slot `t` of the slots of that weight.
proof fn lemma_find_in_class(aw: Seq<u8>, n: nat, w: int, t: int) -> (j: int)
    requires
        n <= aw.len(),
        0 <= t < class_slots(aw, n, w, w + 1),
    ensures
        0 <= j < n,
        aw[j] == w,
        w > 0,
        class_slots(aw, j as nat, w, w + 1) <= t < class_slots(aw, j as nat, w, w + 1)
            + weight_slots(aw[j]),
    decreases n,
{
    if t >= class_slots(aw, (n - 1) as nat, w, w + 1) {
        (n - 1) as int
    } else {
        lemma_find_in_class(aw, (n - 1) as nat, w, t)
    }
}

/// Every slot of the table belongs to some symbol.
pub proof fn lemma_slot_has_owner(aw: Seq<u8>, t: int) -> (i: int)
    requires
        0 <= t < class_slots(aw, aw.len(), 0, 256),
    ensures
        in_run(aw, i, t),
{
    let w = lemma_find_class(aw, t, 256);
    lemma_class_slots_split(aw, aw.len(), 0, w, w + 1);
    let base = class_slots(aw, aw.len(), 0, w);
    lemma_find_in_class(aw, aw.len(), w, t - base)
}

} // verus!

verus! {

/// A symbol with a weight owns at least one slot.
pub proof fn lemma_weight_slots_positive(w: u8)
    requires
        w > 0,
    ensures
        weight_slots(w) >= 1,
{
    lemma_pow2_pos((w - 1) as nat);
}

} // verus!
