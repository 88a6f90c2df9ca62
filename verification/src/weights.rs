//! How the weights of a Huffman table are written down: a header byte, then
//! either two weights per byte or an FSE-compressed stream of weights.

use vstd::prelude::*;
use vstd::slice::slice_subrange;
use crate::bit_reader_reverse::{remaining_after, BitReaderReversed};
use crate::bitstream::bit_at;
use crate::canonical::{weights_error, MAX_WEIGHTS};
use crate::errors::HuffmanTableError;
use crate::fse_decoder::{initial_state, next_state, FSEDecoder};
use crate::fse_format::{table_description};
use crate::fse_layout::FSEEntry;
use crate::fse_spread::decode_table;
use crate::fse_table::FSETable;

verus! {

/// The largest accuracy log accepted for the FSE table of a weight stream.
/// No table description can ask for as much, so none is refused for it.
pub const MAX_WEIGHT_STREAM_LOG: u8 = 100;

/// Weight number `i` of directly written weights: the high half of a byte
/// first, then the low half.
pub open spec fn direct_weight(raw: Seq<u8>, i: int) -> u8 {
    if i % 2 == 0 {
        raw[i / 2] >> 4u8
    } else {
        raw[i / 2] & 0xFu8
    }
}

/// The first `n` directly written weights.
pub open spec fn direct_weights(raw: Seq<u8>, n: nat) -> Seq<u8> {
    Seq::new(n, |i: int| direct_weight(raw, i))
}

/// Bytes that `n` directly written weights take.
pub open spec fn direct_bytes(n: nat) -> nat {
    (n + 1) / 2
}

/// Bits taken from the end of `payload` up to and with the first set bit,
/// the mark in front of the data, after `so_far` zero bits. Nine if the
/// first eight bits are all zero.
pub open spec fn skipped_bits(payload: Seq<u8>, so_far: nat) -> nat
    decreases 9 - so_far,
{
    if so_far >= 8 {
        9
    } else if bit_at(payload, 8 * payload.len() - so_far - 1) == 1 {
        so_far + 1
    } else {
        skipped_bits(payload, so_far + 1)
    }
}

/// The weights that two decoders, taking turns, read from `payload` until
/// the stream is overrun; `first` is the state of the one whose turn it is.
/// The decoder that did not overrun the stream gives the last weight.
pub open spec fn collect_weights(
    decode: Seq<FSEEntry>,
    payload: Seq<u8>,
    first: FSEEntry,
    second: FSEEntry,
    remaining: int,
    weights: Seq<u8>,
) -> Result<Seq<u8>, HuffmanTableError>
    decreases 256 - weights.len(),
{
    let first_next = next_state(decode, first, payload, remaining);
    let after_first = remaining_after(remaining, first.num_bits as nat);
    let second_next = next_state(decode, second, payload, after_first);
    let after_second = remaining_after(after_first, second.num_bits as nat);
    let both = weights.push(first.symbol).push(second.symbol);
    if after_first < 0 {
        Ok(both)
    } else if after_second < 0 {
        Ok(both.push(first_next.symbol))
    } else if both.len() > MAX_WEIGHTS {
        Err(HuffmanTableError::TooManyWeights { got: both.len() as usize })
    } else {
        collect_weights(decode, payload, first_next, second_next, after_second, both)
    }
}

/// The weights that the two decoders have given when they stop: at the end
/// of the stream, or behind the first pair of weights that goes beyond 255.
pub open spec fn weights_at_stop(
    decode: Seq<FSEEntry>,
    payload: Seq<u8>,
    first: FSEEntry,
    second: FSEEntry,
    remaining: int,
    weights: Seq<u8>,
) -> Seq<u8>
    decreases 256 - weights.len(),
{
    let first_next = next_state(decode, first, payload, remaining);
    let after_first = remaining_after(remaining, first.num_bits as nat);
    let second_next = next_state(decode, second, payload, after_first);
    let after_second = remaining_after(after_first, second.num_bits as nat);
    let both = weights.push(first.symbol).push(second.symbol);
    if after_first < 0 {
        both
    } else if after_second < 0 {
        both.push(first_next.symbol)
    } else if both.len() > MAX_WEIGHTS {
        both
    } else {
        weights_at_stop(decode, payload, first_next, second_next, after_second, both)
    }
}

/// A weight stream holds at most 255 weights.
pub open spec fn capped(weights: Result<Seq<u8>, HuffmanTableError>) -> Result<
    Seq<u8>,
    HuffmanTableError,
> {
    match weights {
        Ok(w) => if w.len() > MAX_WEIGHTS {
            Err(HuffmanTableError::TooManyWeights { got: w.len() as usize })
        } else {
            Ok(w)
        },
        Err(e) => Err(e),
    }
}

/// The weights that `payload` holds, compressed with the table `decode` of
/// `2^al` states.
pub open spec fn weight_stream(decode: Seq<FSEEntry>, al: nat, payload: Seq<u8>) -> Result<
    Seq<u8>,
    HuffmanTableError,
> {
    let skipped = skipped_bits(payload, 0);
    if skipped > 8 {
        Err(HuffmanTableError::ExtraPadding { skipped_bits: skipped as i32 })
    } else {
        let start = 8 * payload.len() - skipped;
        let first = initial_state(decode, al, payload, start);
        let after_first = remaining_after(start, al);
        let second = initial_state(decode, al, payload, after_first);
        let after_second = remaining_after(after_first, al);
        capped(collect_weights(decode, payload, first, second, after_second, Seq::empty()))
    }
}

/// The weights that are held once `payload` was decoded, where `before` were
/// held: those same weights if the padding is refused, else the weights
/// that the two decoders gave until they stopped.
pub open spec fn stream_weights_left(
    before: Seq<u8>,
    decode: Seq<FSEEntry>,
    al: nat,
    payload: Seq<u8>,
) -> Seq<u8> {
    let skipped = skipped_bits(payload, 0);
    if skipped > 8 {
        before
    } else {
        let start = 8 * payload.len() - skipped;
        let first = initial_state(decode, al, payload, start);
        let after_first = remaining_after(start, al);
        let second = initial_state(decode, al, payload, after_first);
        let after_second = remaining_after(after_first, al);
        weights_at_stop(decode, payload, first, second, after_second, Seq::empty())
    }
}

/// The weights behind a header byte below 128: the header counts the bytes of
/// an FSE table description and of the weight stream behind it.
pub open spec fn compressed_weights(source: Seq<u8>) -> Result<Seq<u8>, HuffmanTableError>
    recommends
        source.len() > 0,
{
    let header = source[0];
    let stream = source.subrange(1, source.len() as int);
    if header > stream.len() {
        Err(
            HuffmanTableError::NotEnoughBytesForWeights {
                got_bytes: stream.len() as usize,
                expected_bytes: header,
            },
        )
    } else {
        match table_description(stream, MAX_WEIGHT_STREAM_LOG) {
            Err(e) => Err(HuffmanTableError::FSETableError(e)),
            Ok(d) => if d.bytes_used > header {
                Err(
                    HuffmanTableError::FSETableUsedTooManyBytes {
                        used: d.bytes_used as usize,
                        available_bytes: header,
                    },
                )
            } else {
                weight_stream(
                    decode_table(d.probabilities, d.accuracy_log),
                    d.accuracy_log,
                    stream.subrange(d.bytes_used as int, header as int),
                )
            },
        }
    }
}

/// The weights that `source` holds and the number of bytes that they take,
/// the header with them; or why there are none.
pub open spec fn read_weights_spec(source: Seq<u8>) -> Result<(Seq<u8>, nat), HuffmanTableError> {
    if source.len() == 0 {
        Err(HuffmanTableError::SourceIsEmpty)
    } else if source[0] < 128 {
        match compressed_weights(source) {
            Err(e) => Err(e),
            Ok(w) => Ok((w, (1 + source[0]) as nat)),
        }
    } else {
        let n = (source[0] - 127) as nat;
        if source.len() - 1 < direct_bytes(n) {
            Err(
                HuffmanTableError::NotEnoughBytesInSource {
                    got: (source.len() - 1) as usize,
                    need: direct_bytes(n) as usize,
                },
            )
        } else {
            Ok((direct_weights(source.subrange(1, source.len() as int), n), 1 + direct_bytes(n)))
        }
    }
}

/// The weights that a table holds once weights were read from `source`,
/// where it held `before`: on success the weights read; where more than 255
/// weights are refused, the weights decoded until then; on any other error
/// the weights that it held.
pub open spec fn weights_after_read(before: Seq<u8>, source: Seq<u8>) -> Seq<u8> {
    if source.len() == 0 {
        before
    } else if source[0] < 128 {
        let header = source[0];
        let stream = source.subrange(1, source.len() as int);
        if header > stream.len() {
            before
        } else {
            match table_description(stream, MAX_WEIGHT_STREAM_LOG) {
                Err(_) => before,
                Ok(d) => if d.bytes_used > header {
                    before
                } else {
                    stream_weights_left(
                        before,
                        decode_table(d.probabilities, d.accuracy_log),
                        d.accuracy_log,
                        stream.subrange(d.bytes_used as int, header as int),
                    )
                },
            }
        }
    } else {
        let n = (source[0] - 127) as nat;
        if source.len() - 1 < direct_bytes(n) {
            before
        } else {
            direct_weights(source.subrange(1, source.len() as int), n)
        }
    }
}

/// Whether `after` is the FSE table that a Huffman table holds once weights
/// were read from `source`, where it held `before`: the table of the weight
/// stream if its description was read, an empty one if the description was
/// refused, and `before` if no description was looked for.
pub open spec fn weight_table_after_read(
    before: FSETable,
    after: FSETable,
    source: Seq<u8>,
) -> bool {
    if source.len() == 0 || source[0] >= 128 || source[0] > source.len() - 1 {
        after == before
    } else {
        match table_description(source.subrange(1, source.len() as int), MAX_WEIGHT_STREAM_LOG) {
            Err(_) => after.is_empty(),
            Ok(d) => after.is_built() && after.spec_accuracy_log() == d.accuracy_log
                && after.spec_probabilities() == d.probabilities,
        }
    }
}

/// The weights that `source` holds and the number of bytes that they take,
/// if a table can be read and built from `source`; or why none can.
pub open spec fn build_decoder_spec(source: Seq<u8>) -> Result<(Seq<u8>, nat), HuffmanTableError> {
    match read_weights_spec(source) {
        Err(e) => Err(e),
        Ok((w, n)) => match weights_error(w) {
            Some(e) => Err(e),
            None => Ok((w, n)),
        },
    }
}

/// Reads `num_weights` directly written weights from `raw` into `weights`.
pub fn read_direct_weights(raw: &[u8], num_weights: u8, weights: &mut Vec<u8>)
    requires
        raw@.len() >= direct_bytes(num_weights as nat),
    ensures
        final(weights)@ == direct_weights(raw@, num_weights as nat),
{
    weights.clear();
    let mut idx: u8 = 0;
    while idx < num_weights
        invariant
            idx <= num_weights,
            raw@.len() >= direct_bytes(num_weights as nat),
            weights@ == direct_weights(raw@, idx as nat),
        decreases num_weights - idx,
    {
        let byte: u8 = raw[(idx / 2) as usize];
        let weight: u8 = if idx % 2 == 0 {
            byte >> 4u8
        } else {
            byte & 0xFu8
        };
        weights.push(weight);
        idx = idx + 1;
        assert(weights@ =~= direct_weights(raw@, idx as nat));
    }
}

/// Decodes the weight stream `payload` with `table` into `weights`. Where
/// the padding is refused, `weights` stay as they were.
pub fn decode_weight_stream(table: &FSETable, payload: &[u8], weights: &mut Vec<u8>) -> (r: Result<
    (),
    HuffmanTableError,
>)
    requires
        table.is_built(),
        8 * payload@.len() <= isize::MAX,
    ensures
        match weight_stream(table.spec_decode(), table.spec_accuracy_log(), payload@) {
            Err(e) => r == Err::<(), HuffmanTableError>(e),
            Ok(w) => r == Ok::<(), HuffmanTableError>(()) && final(weights)@ == w,
        },
        final(weights)@ == stream_weights_left(
            old(weights)@,
            table.spec_decode(),
            table.spec_accuracy_log(),
            payload@,
        ),
{
    let ghost decode = table.spec_decode();
    let ghost al = table.spec_accuracy_log();
    let ghost bytes = payload@;
    let mut br = BitReaderReversed::new(payload);
    let mut dec1 = FSEDecoder::new(table);
    let mut dec2 = FSEDecoder::new(table);

    // Zero bits pad the last byte; the first set bit marks where data begins.
    let mut skipped: i32 = 0;
    let mut found: bool = false;
    while !found && skipped <= 8
        invariant
            0 <= skipped <= 9,
            weights@ == old(weights)@,
            br.source() == bytes,
            8 * bytes.len() <= isize::MAX,
            br.remaining() == 8 * bytes.len() - skipped,
            skipped_bits(bytes, 0) == if found || skipped > 8 {
                skipped as nat
            } else {
                skipped_bits(bytes, skipped as nat)
            },
            found ==> skipped <= 8,
        decreases 9 - skipped + if found { 0int } else { 1int },
    {
        let val: u64 = match br.get_bits(1) {
            Ok(v) => v,
            Err(e) => {
                return Err(HuffmanTableError::from(e));
            },
        };
        proof {
            let at = 8 * bytes.len() - skipped - 1;
            assert(crate::bitstream::bits_value(bytes, at, 1) == bit_at(bytes, at) + 2
                * crate::bitstream::bits_value(bytes, at + 1, 0));
        }
        skipped = skipped + 1;
        if val == 1 && skipped <= 8 {
            found = true;
        }
    }
    if skipped > 8 {
        return Err(HuffmanTableError::ExtraPadding { skipped_bits: skipped });
    }
    match dec1.init_state(&mut br) {
        Ok(_) => {},
        Err(e) => {
            return Err(HuffmanTableError::from(e));
        },
    }
    match dec2.init_state(&mut br) {
        Ok(_) => {},
        Err(e) => {
            return Err(HuffmanTableError::from(e));
        },
    }
    weights.clear();
    let ghost stop = weights_at_stop(
        decode,
        bytes,
        dec1.spec_state(),
        dec2.spec_state(),
        br.remaining(),
        Seq::empty(),
    );
    let ghost whole = collect_weights(
        decode,
        bytes,
        dec1.spec_state(),
        dec2.spec_state(),
        br.remaining(),
        Seq::empty(),
    );
    assert(weights@ =~= Seq::<u8>::empty());
    loop
        invariant
            br.source() == bytes,
            dec1.wf(),
            dec2.wf(),
            dec1.spec_table() == *table,
            dec2.spec_table() == *table,
            decode == table.spec_decode(),
            weights@.len() <= MAX_WEIGHTS,
            weight_stream(decode, al, bytes) == capped(whole),
            stream_weights_left(old(weights)@, decode, al, bytes) == stop,
            stop == weights_at_stop(
                decode,
                bytes,
                dec1.spec_state(),
                dec2.spec_state(),
                br.remaining(),
                weights@,
            ),
            bytes == payload@,
            al == table.spec_accuracy_log(),
            whole == collect_weights(
                decode,
                bytes,
                dec1.spec_state(),
                dec2.spec_state(),
                br.remaining(),
                weights@,
            ),
        decreases 256 - weights@.len(),
    {
        let w1: u8 = dec1.decode_symbol();
        weights.push(w1);
        match dec1.update_state(&mut br) {
            Ok(_) => {},
            Err(e) => {
                return Err(HuffmanTableError::from(e));
            },
        }
        if br.bits_remaining() <= -1 {
            // The stream is used up: the other decoder's state is the last.
            weights.push(dec2.decode_symbol());
            if weights.len() > MAX_WEIGHTS {
                return Err(HuffmanTableError::TooManyWeights { got: weights.len() });
            }
            return Ok(());
        }
        let w2: u8 = dec2.decode_symbol();
        weights.push(w2);
        match dec2.update_state(&mut br) {
            Ok(_) => {},
            Err(e) => {
                return Err(HuffmanTableError::from(e));
            },
        }
        if br.bits_remaining() <= -1 {
            weights.push(dec1.decode_symbol());
            if weights.len() > MAX_WEIGHTS {
                return Err(HuffmanTableError::TooManyWeights { got: weights.len() });
            }
            return Ok(());
        }
        // The last symbol's weight is never written, so a table has at most
        // 255 written weights.
        if weights.len() > MAX_WEIGHTS {
            return Err(HuffmanTableError::TooManyWeights { got: weights.len() });
        }
    }
}

} // verus!
