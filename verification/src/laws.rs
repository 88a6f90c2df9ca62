//! What holds of every table that this library builds, and of every
//! description that it refuses.

use vstd::prelude::*;
use vstd::arithmetic::power2::*;
use vstd::arithmetic::div_mod::*;
use crate::arith::{
    bit_length,
    is_power_of_two,
    lemma_bit_length_bounds,
    lemma_pow2_is_power_of_two,
};
use crate::canonical::{
    all_weights,
    class_slots,
    code_length,
    entry_matches,
    first_heavy,
    in_run,
    leftover,
    lemma_class_slots_split,
    lemma_run_in_table,
    lemma_runs_disjoint,
    lemma_valid_weights,
    lemma_weight_slots_positive,
    max_bits,
    run_start,
    table_matches,
    weight_slots,
    weight_sum,
    weights_error,
    Entry,
    MAX_MAX_NUM_BITS,
    MAX_WEIGHTS,
};
use crate::errors::HuffmanTableError;
use crate::fse_layout::FSEEntry;
use crate::weights::{
    build_decoder_spec,
    collect_weights,
    direct_bytes,
    read_weights_spec,
    stream_weights_left,
    weight_stream,
    weights_after_read,
    weights_at_stop,
};

verus! {

/// The code of symbol `i`: the bits that all slots of the symbol begin with,
/// as a number of as many bits as the symbol's code is long.
pub open spec fn code_of(aw: Seq<u8>, i: int) -> nat {
    run_start(aw, i) / weight_slots(aw[i])
}

/// The slots of the symbols whose weight is `lo` or more come in whole
/// multiples of the slots of one symbol of weight `lo`.
proof fn lemma_class_slots_multiple(aw: Seq<u8>, n: nat, lo: int, hi: int) -> (k: nat)
    requires
        1 <= lo,
        n <= aw.len(),
    ensures
        class_slots(aw, n, lo, hi) == k * pow2((lo - 1) as nat),
    decreases n,
{
    let d = pow2((lo - 1) as nat);
    if n == 0 {
        assert(0 * d == 0) by (nonlinear_arith);
        0
    } else {
        let k0 = lemma_class_slots_multiple(aw, (n - 1) as nat, lo, hi);
        let w = aw[n - 1];
        if lo <= w < hi {
            let c = pow2((w - lo) as nat);
            lemma_pow2_adds((w - lo) as nat, (lo - 1) as nat);
            assert((k0 + c) * d == k0 * d + c * d) by (nonlinear_arith);
            k0 + c
        } else {
            k0
        }
    }
}

/// A number lies in the `k`-th block of `d` numbers exactly when dividing it
/// by `d` gives `k`.
proof fn lemma_block_of(t: int, k: int, d: int)
    requires
        d > 0,
        t >= 0,
    ensures
        t / d == k <==> k * d <= t < k * d + d,
{
    lemma_fundamental_div_mod(t, d);
    lemma_mod_bound(t, d);
    let q = t / d;
    if q == k {
        assert(k * d == d * q) by (nonlinear_arith)
            requires
                q == k,
        ;
    }
    if k * d <= t < k * d + d {
        if q < k {
            assert(d * q + d <= k * d) by (nonlinear_arith)
                requires
                    q + 1 <= k,
                    d > 0,
            ;
        }
        if q > k {
            assert(k * d + d <= d * q) by (nonlinear_arith)
                requires
                    k + 1 <= q,
                    d > 0,
            ;
        }
    }
}

/// The slots of a symbol are those that begin with the symbol's code. A
/// symbol whose code has `b` of the `m` bits owns `2^(m-b)` slots; the first
/// of them is a multiple of that number; and a slot belongs to the symbol
/// exactly when its leading `b` bits are the code.
pub proof fn lemma_code_owns_slots(ws: Seq<u8>, i: int, t: int)
    requires
        weights_error(ws) is None,
        0 <= i <= ws.len(),
        all_weights(ws)[i] > 0,
        0 <= t,
    ensures
        weight_slots(all_weights(ws)[i]) == pow2(
            (max_bits(ws) - code_length(max_bits(ws), all_weights(ws)[i])) as nat,
        ),
        1 <= code_length(max_bits(ws), all_weights(ws)[i]) <= max_bits(ws),
        code_of(all_weights(ws), i) < pow2(code_length(max_bits(ws), all_weights(ws)[i])),
        run_start(all_weights(ws), i) % weight_slots(all_weights(ws)[i]) == 0,
        t / (weight_slots(all_weights(ws)[i]) as int) == code_of(all_weights(ws), i) as int
            <==> in_run(all_weights(ws), i, t),
{
    let aw = all_weights(ws);
    let m = max_bits(ws);
    let w = aw[i];
    let d = weight_slots(w);
    lemma_valid_weights(ws);
    lemma_weight_slots_positive(w);
    let above = lemma_class_slots_multiple(aw, aw.len(), w as int, 256);
    let same = lemma_class_slots_multiple(aw, i as nat, w as int, w + 1);
    lemma_class_slots_split(aw, aw.len(), 0, w as int, 256);
    lemma_pow2_adds((m + 1 - w) as nat, (w - 1) as nat);
    let whole = pow2((m + 1 - w) as nat);
    let start = run_start(aw, i);
    let k = whole - above + same;
    assert(start == k * d) by (nonlinear_arith)
        requires
            start == whole * d - above * d + same * d,
            k == whole - above + same,
    ;
    assert(k >= 0) by (nonlinear_arith)
        requires
            start == k * d,
            start >= 0,
            d > 0,
    ;
    lemma_mod_multiples_basic(k, d as int);
    lemma_block_of(start as int, k, d as int);
    lemma_block_of(t, k, d as int);
    assert(in_run(aw, i, start as int));
    lemma_run_in_table(aw, i, start as int);
    lemma_pow2_adds((m + 1 - w) as nat, (w - 1) as nat);
    assert(k < whole) by (nonlinear_arith)
        requires
            k * d < whole * d,
            d > 0,
    ;
}

/// A built table shares out its slots among the symbols: the slots of all
/// symbols together are as many as the table has; every slot holds the
/// symbol that it belongs to and that symbol's code length; and no slot
/// belongs to two symbols.
pub proof fn lemma_codespace_partition(ws: Seq<u8>, decode: Seq<Entry>)
    requires
        weights_error(ws) is None,
        table_matches(ws, decode),
    ensures
        decode.len() == pow2(max_bits(ws)),
        class_slots(all_weights(ws), all_weights(ws).len(), 0, 256) == decode.len(),
        forall|t: int|
            0 <= t < decode.len() ==> in_run(all_weights(ws), (#[trigger] decode[t]).symbol as int, t)
                && 1 <= decode[t].num_bits <= max_bits(ws) && decode[t].num_bits == code_length(
                max_bits(ws),
                all_weights(ws)[decode[t].symbol as int],
            ),
        forall|i: int, t: int|
            #[trigger] in_run(all_weights(ws), i, t) ==> 0 <= t < decode.len()
                && decode[t].symbol == i,
        forall|i: int, j: int, t: int|
            #[trigger] in_run(all_weights(ws), i, t) && #[trigger] in_run(all_weights(ws), j, t)
                ==> i == j,
{
    let aw = all_weights(ws);
    lemma_valid_weights(ws);
    assert forall|i: int, t: int| #[trigger] in_run(aw, i, t) implies 0 <= t < decode.len()
        && decode[t].symbol == i by {
        lemma_run_in_table(aw, i, t);
        assert(entry_matches(aw, max_bits(ws), t, decode[t]));
        lemma_runs_disjoint(aw, i, decode[t].symbol as int, t);
    }
    assert forall|i: int, j: int, t: int| #[trigger]
        in_run(aw, i, t) && #[trigger] in_run(aw, j, t) implies i == j by {
        lemma_runs_disjoint(aw, i, j, t);
    }
    assert forall|t: int| 0 <= t < decode.len() implies in_run(
        aw,
        (#[trigger] decode[t]).symbol as int,
        t,
    ) && 1 <= decode[t].num_bits <= max_bits(ws) && decode[t].num_bits == code_length(
        max_bits(ws),
        aw[decode[t].symbol as int],
    ) by {
        assert(entry_matches(aw, max_bits(ws), t, decode[t]));
    }
}

/// In a built table, every slot that begins with the code of a symbol holds
/// that symbol and the length of its code.
pub proof fn lemma_lookup_by_code(ws: Seq<u8>, decode: Seq<Entry>, i: int, t: int)
    requires
        weights_error(ws) is None,
        table_matches(ws, decode),
        0 <= i <= ws.len(),
        all_weights(ws)[i] > 0,
        0 <= t < decode.len(),
        t / (weight_slots(all_weights(ws)[i]) as int) == code_of(all_weights(ws), i) as int,
    ensures
        decode[t].symbol == i,
        decode[t].num_bits == code_length(max_bits(ws), all_weights(ws)[i]),
{
    lemma_code_owns_slots(ws, i, t);
    lemma_codespace_partition(ws, decode);
}

/// A weight above the limit is found wherever it stands.
proof fn lemma_first_heavy(ws: Seq<u8>, from: nat, i: int)
    requires
        from <= i < ws.len(),
        ws[i] > MAX_MAX_NUM_BITS,
    ensures
        first_heavy(ws, from) is Some,
    decreases ws.len() - from,
{
    if ws[from as int] <= MAX_MAX_NUM_BITS {
        lemma_first_heavy(ws, from + 1, i);
    }
}

/// No table is built from weights of which one is above 11.
pub proof fn lemma_heavy_weight_rejected(ws: Seq<u8>, i: int)
    requires
        0 <= i < ws.len(),
        ws[i] > MAX_MAX_NUM_BITS,
    ensures
        weights_error(ws) is Some,
{
    lemma_first_heavy(ws, 0, i);
}

/// Where no weight from `from` on is above the limit, none is found.
proof fn lemma_no_heavy(ws: Seq<u8>, from: nat)
    requires
        forall|i: int| from <= i < ws.len() ==> #[trigger] ws[i] <= MAX_MAX_NUM_BITS,
    ensures
        first_heavy(ws, from) is None,
    decreases ws.len() - from,
{
    if from < ws.len() {
        lemma_no_heavy(ws, from + 1);
    }
}

/// The weight found is the first one above the limit.
proof fn lemma_first_heavy_is(ws: Seq<u8>, from: nat, k: int)
    requires
        from <= k < ws.len(),
        ws[k] > MAX_MAX_NUM_BITS,
        forall|i: int| from <= i < k ==> #[trigger] ws[i] <= MAX_MAX_NUM_BITS,
    ensures
        first_heavy(ws, from) == Some(ws[k]),
    decreases ws.len() - from,
{
    if from < k {
        lemma_first_heavy_is(ws, from + 1, k);
    }
}

/// Of at most 255 weights, the first one above 11 is named in the error,
/// whatever the other weights are.
pub proof fn lemma_heavy_weight_error(ws: Seq<u8>, k: int)
    requires
        ws.len() <= MAX_WEIGHTS,
        0 <= k < ws.len(),
        ws[k] > MAX_MAX_NUM_BITS,
        forall|i: int| 0 <= i < k ==> #[trigger] ws[i] <= MAX_MAX_NUM_BITS,
    ensures
        weights_error(ws) == Some(HuffmanTableError::WeightBiggerThanMaxNumBits { got: ws[k] }),
{
    lemma_first_heavy_is(ws, 0, k);
}

/// At most 255 weights, none above 11 and one of them set, that leave of the
/// code space what is no power of two are refused with what they leave,
/// however long their longest code would be.
pub proof fn lemma_leftover_error(ws: Seq<u8>)
    requires
        ws.len() <= MAX_WEIGHTS,
        forall|i: int| 0 <= i < ws.len() ==> #[trigger] ws[i] <= MAX_MAX_NUM_BITS,
        weight_sum(ws) > 0,
        !is_power_of_two(leftover(ws)),
    ensures
        weights_error(ws) == Some(
            HuffmanTableError::LeftoverIsNotAPowerOf2 { got: leftover(ws) as u32 },
        ),
{
    lemma_no_heavy(ws, 0);
}

/// At most 255 weights, none above 11, that leave a power of two but ask
/// for a code of more than 11 bits are refused with the length of that code.
pub proof fn lemma_long_code_error(ws: Seq<u8>)
    requires
        ws.len() <= MAX_WEIGHTS,
        forall|i: int| 0 <= i < ws.len() ==> #[trigger] ws[i] <= MAX_MAX_NUM_BITS,
        is_power_of_two(leftover(ws)),
        max_bits(ws) > MAX_MAX_NUM_BITS,
    ensures
        weights_error(ws) == Some(HuffmanTableError::MaxBitsTooHigh { got: max_bits(ws) as u8 }),
{
    lemma_no_heavy(ws, 0);
}

/// No table is built from weights that ask for a code of more than 11 bits.
pub proof fn lemma_long_code_rejected(ws: Seq<u8>)
    requires
        max_bits(ws) > MAX_MAX_NUM_BITS,
    ensures
        weights_error(ws) is Some,
{
}

/// No table is built from weights that leave of the code space what is no
/// power of two.
pub proof fn lemma_leftover_rejected(ws: Seq<u8>)
    requires
        !is_power_of_two(leftover(ws)),
    ensures
        weights_error(ws) is Some,
{
}

/// Weights of which one is set never fill the code space: something is left
/// for the last symbol.
pub proof fn lemma_leftover_positive(ws: Seq<u8>)
    requires
        weight_sum(ws) > 0,
    ensures
        0 < leftover(ws) <= weight_sum(ws),
        weight_sum(ws) + leftover(ws) == pow2(max_bits(ws)),
{
    lemma_bit_length_bounds(weight_sum(ws));
    lemma_pow2_unfold(max_bits(ws));
}

/// The bytes that a description of weights takes: the header byte and the
/// bytes that the header counts, where the weights are compressed; the header
/// byte and one byte for every two weights, where they are not.
pub proof fn lemma_bytes_consumed(source: Seq<u8>)
    requires
        read_weights_spec(source) is Ok,
    ensures
        source.len() > 0,
        read_weights_spec(source)->Ok_0.1 <= source.len(),
        source[0] < 128 ==> read_weights_spec(source)->Ok_0.1 == 1 + source[0],
        source[0] >= 128 ==> read_weights_spec(source)->Ok_0.1 == 1 + direct_bytes(
            (source[0] - 127) as nat,
        ) && read_weights_spec(source)->Ok_0.0.len() == source[0] - 127,
{
}

/// Two decoders taking turns, from an even number of weights on, give at
/// least two weights more than they began with, or stop at the 256th.
pub proof fn lemma_collect_weights_len(
    decode: Seq<FSEEntry>,
    payload: Seq<u8>,
    first: FSEEntry,
    second: FSEEntry,
    remaining: int,
    weights: Seq<u8>,
)
    requires
        weights.len() % 2 == 0,
        weights.len() <= 254,
    ensures
        match collect_weights(decode, payload, first, second, remaining, weights) {
            Ok(w) => w.len() >= weights.len() + 2,
            Err(e) => e == (HuffmanTableError::TooManyWeights { got: 256 }),
        },
    decreases 256 - weights.len(),
{
    let after_first = crate::bit_reader_reverse::remaining_after(remaining, first.num_bits as nat);
    let after_second = crate::bit_reader_reverse::remaining_after(
        after_first,
        second.num_bits as nat,
    );
    let both = weights.push(first.symbol).push(second.symbol);
    if after_first >= 0 && after_second >= 0 {
        if both.len() <= MAX_WEIGHTS {
            lemma_collect_weights_len(
                decode,
                payload,
                crate::fse_decoder::next_state(decode, first, payload, remaining),
                crate::fse_decoder::next_state(decode, second, payload, after_first),
                after_second,
                both,
            );
        }
    }
}

/// A weight stream gives between 2 and 255 weights, or none at all.
pub proof fn lemma_weight_stream_len(decode: Seq<FSEEntry>, al: nat, payload: Seq<u8>)
    ensures
        match weight_stream(decode, al, payload) {
            Ok(w) => 2 <= w.len() <= MAX_WEIGHTS,
            Err(_) => true,
        },
{
    let skipped = crate::weights::skipped_bits(payload, 0);
    if skipped <= 8 {
        let start = 8 * payload.len() - skipped;
        let first = crate::fse_decoder::initial_state(decode, al, payload, start);
        let after_first = crate::bit_reader_reverse::remaining_after(start, al);
        let second = crate::fse_decoder::initial_state(decode, al, payload, after_first);
        let after_second = crate::bit_reader_reverse::remaining_after(after_first, al);
        lemma_collect_weights_len(decode, payload, first, second, after_second, Seq::empty());
    }
}

/// Whatever a table is built from, its weights passed every check.
pub proof fn lemma_built_from_valid_weights(source: Seq<u8>)
    requires
        build_decoder_spec(source) is Ok,
    ensures
        weights_error(build_decoder_spec(source)->Ok_0.0) is None,
        1 <= build_decoder_spec(source)->Ok_0.0.len() <= MAX_WEIGHTS,
        1 <= max_bits(build_decoder_spec(source)->Ok_0.0) <= MAX_MAX_NUM_BITS,
        is_power_of_two(leftover(build_decoder_spec(source)->Ok_0.0)),
        forall|i: int|
            0 <= i < build_decoder_spec(source)->Ok_0.0.len() ==> #[trigger] build_decoder_spec(
                source,
            )->Ok_0.0[i] <= MAX_MAX_NUM_BITS,
        build_decoder_spec(source)->Ok_0.1 == read_weights_spec(source)->Ok_0.1,
{
    lemma_valid_weights(build_decoder_spec(source)->Ok_0.0);
}

/// A number is a power of two exactly when it is `2^k` for some `k`.
pub proof fn lemma_power_of_two_iff_exists(x: nat)
    ensures
        is_power_of_two(x) <==> exists|k: nat| x == pow2(k),
{
    if is_power_of_two(x) {
        assert(x == pow2((bit_length(x) - 1) as nat));
    }
    if exists|k: nat| x == pow2(k) {
        let k = choose|k: nat| x == pow2(k);
        lemma_pow2_is_power_of_two(k);
    }
}

/// The errors that no description brings about: no read of a weight stream
/// asks a reader for more bits than it hands out, the table of a weight
/// stream is always built before it is walked, and the bytes of a weight
/// stream are counted before its table is read.
pub proof fn lemma_errors_that_never_come(source: Seq<u8>)
    ensures
        match build_decoder_spec(source) {
            Err(e) => !(e is GetBitsError) && !(e is FSEDecoderError) && !(e
                is NotEnoughBytesToDecompressWeights),
            Ok(_) => true,
        },
{
    if source.len() > 0 && source[0] < 128 {
        let header = source[0];
        let stream = source.subrange(1, source.len() as int);
        if header <= stream.len() {
            match crate::fse_format::table_description(stream, crate::weights::MAX_WEIGHT_STREAM_LOG) {
                Err(_) => {},
                Ok(d) => {
                    if d.bytes_used <= header {
                        let decode = crate::fse_spread::decode_table(
                            d.probabilities,
                            d.accuracy_log,
                        );
                        let al = d.accuracy_log;
                        let payload = stream.subrange(d.bytes_used as int, header as int);
                        let skipped = crate::weights::skipped_bits(payload, 0);
                        if skipped <= 8 {
                            let start = 8 * payload.len() - skipped;
                            let first = crate::fse_decoder::initial_state(
                                decode,
                                al,
                                payload,
                                start,
                            );
                            let after_first = crate::bit_reader_reverse::remaining_after(start, al);
                            let second = crate::fse_decoder::initial_state(
                                decode,
                                al,
                                payload,
                                after_first,
                            );
                            let after_second = crate::bit_reader_reverse::remaining_after(
                                after_first,
                                al,
                            );
                            lemma_collect_weights_len(
                                decode,
                                payload,
                                first,
                                second,
                                after_second,
                                Seq::empty(),
                            );
                        }
                    }
                },
            }
        }
    }
}

/// The weights that two decoders give are the weights that they hold when
/// they stop; where they are refused, the number named is how many they hold.
pub proof fn lemma_weights_at_stop(
    decode: Seq<FSEEntry>,
    payload: Seq<u8>,
    first: FSEEntry,
    second: FSEEntry,
    remaining: int,
    weights: Seq<u8>,
)
    requires
        weights.len() <= MAX_WEIGHTS,
    ensures
        match collect_weights(decode, payload, first, second, remaining, weights) {
            Ok(w) => w == weights_at_stop(decode, payload, first, second, remaining, weights),
            Err(e) => e == (HuffmanTableError::TooManyWeights {
                got: weights_at_stop(
                    decode,
                    payload,
                    first,
                    second,
                    remaining,
                    weights,
                ).len() as usize,
            }),
        },
    decreases 256 - weights.len(),
{
    let after_first = crate::bit_reader_reverse::remaining_after(remaining, first.num_bits as nat);
    let after_second = crate::bit_reader_reverse::remaining_after(
        after_first,
        second.num_bits as nat,
    );
    let both = weights.push(first.symbol).push(second.symbol);
    if after_first >= 0 && after_second >= 0 && both.len() <= MAX_WEIGHTS {
        lemma_weights_at_stop(
            decode,
            payload,
            crate::fse_decoder::next_state(decode, first, payload, remaining),
            crate::fse_decoder::next_state(decode, second, payload, after_first),
            after_second,
            both,
        );
    }
}

/// The weights that a weight stream gives are the weights that are held
/// once it was decoded.
pub proof fn lemma_stream_weights_left(
    before: Seq<u8>,
    decode: Seq<FSEEntry>,
    al: nat,
    payload: Seq<u8>,
)
    ensures
        match weight_stream(decode, al, payload) {
            Ok(w) => stream_weights_left(before, decode, al, payload) == w,
            Err(e) => e is ExtraPadding ==> stream_weights_left(before, decode, al, payload)
                == before,
        },
{
    let skipped = crate::weights::skipped_bits(payload, 0);
    if skipped <= 8 {
        let start = 8 * payload.len() - skipped;
        let first = crate::fse_decoder::initial_state(decode, al, payload, start);
        let after_first = crate::bit_reader_reverse::remaining_after(start, al);
        let second = crate::fse_decoder::initial_state(decode, al, payload, after_first);
        let after_second = crate::bit_reader_reverse::remaining_after(after_first, al);
        lemma_weights_at_stop(decode, payload, first, second, after_second, Seq::empty());
        lemma_collect_weights_len(decode, payload, first, second, after_second, Seq::empty());
    }
}

/// The weights read from a description are the weights that the table holds
/// afterwards; and a description that is refused for anything but the number
/// of its weights leaves the table the weights that it held.
pub proof fn lemma_weights_after_read(before: Seq<u8>, source: Seq<u8>)
    ensures
        match read_weights_spec(source) {
            Ok((w, _)) => weights_after_read(before, source) == w,
            Err(e) => !(e is TooManyWeights) ==> weights_after_read(before, source) == before,
        },
{
    if source.len() > 0 && source[0] < 128 {
        let header = source[0];
        let stream = source.subrange(1, source.len() as int);
        if header <= stream.len() {
            match crate::fse_format::table_description(
                stream,
                crate::weights::MAX_WEIGHT_STREAM_LOG,
            ) {
                Err(_) => {},
                Ok(d) => {
                    if d.bytes_used <= header {
                        let decode = crate::fse_spread::decode_table(
                            d.probabilities,
                            d.accuracy_log,
                        );
                        let payload = stream.subrange(d.bytes_used as int, header as int);
                        lemma_stream_weights_left(before, decode, d.accuracy_log, payload);
                        lemma_weight_stream_errors(decode, d.accuracy_log, payload);
                    }
                },
            }
        }
    }
}

/// A weight stream is refused for its padding or for the number of its
/// weights, and for nothing else.
pub proof fn lemma_weight_stream_errors(decode: Seq<FSEEntry>, al: nat, payload: Seq<u8>)
    ensures
        match weight_stream(decode, al, payload) {
            Ok(_) => true,
            Err(e) => e is ExtraPadding || e is TooManyWeights,
        },
{
    let skipped = crate::weights::skipped_bits(payload, 0);
    if skipped <= 8 {
        let start = 8 * payload.len() - skipped;
        let first = crate::fse_decoder::initial_state(decode, al, payload, start);
        let after_first = crate::bit_reader_reverse::remaining_after(start, al);
        let second = crate::fse_decoder::initial_state(decode, al, payload, after_first);
        let after_second = crate::bit_reader_reverse::remaining_after(after_first, al);
        lemma_collect_weights_len(decode, payload, first, second, after_second, Seq::empty());
    }
}

} // verus!
