//! How an FSE table is written down: an accuracy log, then one probability
//! per symbol in a code whose width shrinks as fewer states are left to give
//! out, with runs of zero probabilities cut short.

use vstd::prelude::*;
use vstd::arithmetic::power2::*;
use crate::arith::{bit_length, lemma_bit_length_bounds};
use crate::bit_reader::GetBitsError;
use crate::bitstream::{bits_value};
use crate::errors::FSETableError;

verus! {

/// What is added to the four bits in front of a description to get the
/// accuracy log.
pub const ACC_LOG_OFFSET: u8 = 5;

/// The largest number of symbols that a table may describe.
pub const MAX_SYMBOLS: usize = 256;

/// The largest accuracy log that four bits can ask for.
pub const MAX_ACCURACY_LOG: u8 = 20;

/// States of the table that a symbol of probability `prob` takes. The
/// probability -1 stands for "less than one" and takes one state.
pub open spec fn states_of(prob: i32) -> nat {
    if prob == -1 {
        1
    } else if prob > 0 {
        prob as nat
    } else {
        0
    }
}

/// States taken by the first `n` symbols together.
pub open spec fn total_states(probs: Seq<i32>, n: nat) -> nat
    decreases n,
{
    if n == 0 || n > probs.len() {
        0
    } else {
        total_states(probs, (n - 1) as nat) + states_of(probs[n - 1])
    }
}

/// Whether `probs` fills a table of `2^al` states.
pub open spec fn valid_probabilities(probs: Seq<i32>, al: nat) -> bool {
    &&& ACC_LOG_OFFSET <= al <= MAX_ACCURACY_LOG
    &&& probs.len() <= MAX_SYMBOLS
    &&& forall|i: int| 0 <= i < probs.len() ==> -1 <= #[trigger] probs[i] <= pow2(al)
    &&& total_states(probs, probs.len()) == pow2(al)
}

/// Values below this threshold are written with one bit less than the
/// others, where `max_remaining` is the largest value that can still come.
pub open spec fn low_threshold(max_remaining: nat) -> nat {
    (pow2(bit_length(max_remaining)) - 1 - max_remaining) as nat
}

/// Whether the value read as `raw` was written with one bit less.
pub open spec fn value_is_short(raw: nat, max_remaining: nat) -> bool {
    raw % pow2((bit_length(max_remaining) - 1) as nat) < low_threshold(max_remaining)
}

/// The value that the bits `raw` stand for.
pub open spec fn decoded_value(raw: nat, max_remaining: nat) -> nat {
    let half = pow2((bit_length(max_remaining) - 1) as nat);
    if raw % half < low_threshold(max_remaining) {
        raw % half
    } else if raw >= half {
        (raw - low_threshold(max_remaining)) as nat
    } else {
        raw
    }
}

/// The error of a read of `n` bits at bit `pos` that the stream is too short
/// for.
pub open spec fn not_enough_bits(source: Seq<u8>, pos: nat, n: nat) -> FSETableError {
    FSETableError::GetBitsError(
        GetBitsError::NotEnoughRemainingBits {
            requested: n as usize,
            remaining: (8 * source.len() - pos) as usize,
        },
    )
}

/// `n` zero probabilities.
pub open spec fn zero_run(n: nat) -> Seq<i32> {
    Seq::new(n, |i: int| 0i32)
}

/// Reads the run lengths behind a zero probability, two bits each, until one
/// is below three. Gives the probabilities with the zeros added, and the
/// position behind the last run length.
pub open spec fn skip_zeros(source: Seq<u8>, pos: nat, probs: Seq<i32>) -> Result<
    (Seq<i32>, nat),
    FSETableError,
>
    decreases 8 * source.len() - pos,
{
    if pos + 2 > 8 * source.len() {
        Err(not_enough_bits(source, pos, 2))
    } else {
        let run = bits_value(source, pos as int, 2);
        let longer = probs + zero_run(run);
        if run == 3 {
            skip_zeros(source, pos + 2, longer)
        } else {
            Ok((longer, pos + 2))
        }
    }
}

/// A finished run of zeros ends behind where it began, inside the stream.
pub proof fn lemma_skip_zeros_advances(source: Seq<u8>, pos: nat, probs: Seq<i32>)
    ensures
        match skip_zeros(source, pos, probs) {
            Ok((longer, behind)) => pos + 2 <= behind <= 8 * source.len() && longer.len()
                >= probs.len(),
            Err(_) => true,
        },
    decreases 8 * source.len() - pos,
{
    if pos + 2 <= 8 * source.len() {
        let run = bits_value(source, pos as int, 2);
        if run == 3 {
            lemma_skip_zeros_advances(source, pos + 2, probs + zero_run(run));
        }
    }
}

/// Every value is written with at least two bits, one of which may be handed
/// back.
pub proof fn lemma_width_at_least_two(max_remaining: nat)
    requires
        max_remaining >= 2,
    ensures
        bit_length(max_remaining) >= 2,
{
    lemma_bit_length_bounds(max_remaining);
    lemma2_to64();
}

/// Reads probabilities from bit `pos` on until the `2^al` states are given
/// out, `counter` of which already are. Gives all probabilities and the
/// position behind the last one.
pub open spec fn parse_probabilities(
    source: Seq<u8>,
    al: nat,
    pos: nat,
    counter: nat,
    probs: Seq<i32>,
) -> Result<(Seq<i32>, nat), FSETableError>
    decreases 8 * source.len() - pos,
{
    if counter >= pow2(al) {
        Ok((probs, pos))
    } else {
        let max_remaining = (pow2(al) - counter + 1) as nat;
        let width = bit_length(max_remaining);
        if pos + width > 8 * source.len() {
            Err(not_enough_bits(source, pos, width))
        } else {
            let raw = bits_value(source, pos as int, width);
            let value = decoded_value(raw, max_remaining);
            let after = if value_is_short(raw, max_remaining) {
                (pos + width - 1) as nat
            } else {
                pos + width
            };
            let prob = (value - 1) as i32;
            proof {
                lemma_width_at_least_two(max_remaining);
                lemma_skip_zeros_advances(source, after, probs.push(0i32));
            }
            if prob != 0 {
                parse_probabilities(source, al, after, counter + states_of(prob), probs.push(prob))
            } else {
                match skip_zeros(source, after, probs.push(0i32)) {
                    Err(e) => Err(e),
                    Ok((longer, behind)) => parse_probabilities(
                        source,
                        al,
                        behind,
                        counter,
                        longer,
                    ),
                }
            }
        }
    }
}

/// What a table description holds.
pub struct TableDescription {
    /// The table has `2^accuracy_log` states.
    pub accuracy_log: nat,
    /// One probability per symbol.
    pub probabilities: Seq<i32>,
    /// Bytes that the description takes, the last one possibly in part.
    pub bytes_used: nat,
}

/// The description that the probabilities read make up, unless they are too
/// many.
pub open spec fn finish_description(
    al: nat,
    parsed: Result<(Seq<i32>, nat), FSETableError>,
) -> Result<TableDescription, FSETableError> {
    match parsed {
        Err(e) => Err(e),
        Ok((probs, pos)) => if probs.len() > MAX_SYMBOLS {
            Err(FSETableError::TooManySymbols { got: probs.len() as usize })
        } else {
            Ok(
                TableDescription {
                    accuracy_log: al,
                    probabilities: probs,
                    bytes_used: (pos + 7) / 8,
                },
            )
        },
    }
}

/// Reads the table description at the front of `source`, or says why there
/// is none.
pub open spec fn table_description(source: Seq<u8>, max_log: u8) -> Result<
    TableDescription,
    FSETableError,
> {
    if 8 * source.len() < 4 {
        Err(not_enough_bits(source, 0, 4))
    } else {
        let al = (ACC_LOG_OFFSET + bits_value(source, 0, 4)) as nat;
        if al > max_log {
            Err(FSETableError::AccLogTooBig { got: al as u8, max: max_log })
        } else {
            finish_description(al, parse_probabilities(source, al, 4, 0, Seq::empty()))
        }
    }
}

/// No value is above the largest that can still come.
pub proof fn lemma_decoded_value_bound(raw: nat, max_remaining: nat)
    requires
        max_remaining >= 2,
        raw < pow2(bit_length(max_remaining)),
    ensures
        decoded_value(raw, max_remaining) <= max_remaining,
        low_threshold(max_remaining) < pow2((bit_length(max_remaining) - 1) as nat),
        low_threshold(max_remaining) + max_remaining + 1 == pow2(bit_length(max_remaining)),
{
    lemma_bit_length_bounds(max_remaining);
    lemma_pow2_unfold(bit_length(max_remaining));
    let half = pow2((bit_length(max_remaining) - 1) as nat);
    assert(raw % half < half) by (nonlinear_arith)
        requires
            half > 0,
    ;
}

/// States of a sequence with one more probability.
pub proof fn lemma_total_states_push(probs: Seq<i32>, prob: i32)
    ensures
        total_states(probs.push(prob), probs.len() + 1) == total_states(probs, probs.len())
            + states_of(prob),
{
    lemma_total_states_same_prefix(probs.push(prob), probs, probs.len());
}

/// The states of a prefix depend on that prefix alone.
pub proof fn lemma_total_states_same_prefix(a: Seq<i32>, b: Seq<i32>, n: nat)
    requires
        n <= a.len(),
        n <= b.len(),
        forall|i: int| 0 <= i < n ==> a[i] == b[i],
    ensures
        total_states(a, n) == total_states(b, n),
    decreases n,
{
    if n > 0 {
        lemma_total_states_same_prefix(a, b, (n - 1) as nat);
    }
}

} // verus!
