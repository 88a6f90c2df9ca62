//! The Huffman decode table and how it is built from weights.

use vstd::prelude::*;
use vstd::arithmetic::power2::*;
use crate::arith::{
    highest_bit_set,
    is_power_of_two_u32,
    lemma_bit_length_bounds,
    lemma_pow2_monotone,
    pow2_u32,
    pow2_usize,
    refill,
};
use crate::canonical::{
    all_weights,
    class_slots,
    code_length,
    code_lengths,
    count_weight,
    entry_matches,
    first_heavy,
    in_run,
    last_weight,
    length_ranks,
    lemma_class_slots_empty,
    lemma_class_slots_single,
    lemma_class_slots_split,
    lemma_run_in_table,
    lemma_runs_disjoint,
    lemma_slot_has_owner,
    lemma_valid_weights,
    max_bits,
    rank_ends,
    run_start,
    table_matches,
    weight_of_length,
    weight_slots,
    weight_sum,
    weights_error,
    Entry,
    MAX_MAX_NUM_BITS,
    MAX_WEIGHTS,
};
use crate::errors::HuffmanTableError;
use crate::fse_table::FSETable;
use crate::weights::{
    build_decoder_spec,
    decode_weight_stream,
    read_direct_weights,
    read_weights_spec,
    weight_table_after_read,
    weights_after_read,
    MAX_WEIGHT_STREAM_LOG,
};
use vstd::slice::slice_subrange;

verus! {

/// What a Huffman table is built from and in: the weights read, the code
/// lengths and the decode table made of them, the scratch of the last build,
/// and the FSE table that compressed weights are read with. All of it is
/// kept so that a table can be rebuilt block after block without new
/// allocations.
pub struct TableBuffers {
    decode: Vec<Entry>,
    weights: Vec<u8>,
    bits: Vec<u8>,
    bit_ranks: Vec<u32>,
    rank_indexes: Vec<usize>,
    fse_table: FSETable,
}

/// A Huffman decode table together with the buffers it is built in.
pub struct HuffmanTable {
    /// Length in bits of the longest code; the table has `2^max_num_bits`
    /// slots.
    pub max_num_bits: u8,
    /// The table itself and what it was built from.
    pub buffers: TableBuffers,
}

/// What every slot of symbol `j` holds.
spec fn run_entry(aw: Seq<u8>, m: nat, j: int) -> Entry {
    Entry { symbol: j as u8, num_bits: (m + 1 - aw[j]) as u8 }
}

impl TableBuffers {
    /// The written weights, one per symbol but the last.
    pub closed spec fn spec_weights(&self) -> Seq<u8> {
        self.weights@
    }

    /// The decode table.
    pub closed spec fn spec_decode(&self) -> Seq<Entry> {
        self.decode@
    }

    /// Code length of every symbol, the last one included.
    pub closed spec fn spec_bits(&self) -> Seq<u8> {
        self.bits@
    }

    /// How many symbols the last build found of each code length.
    pub closed spec fn spec_bit_ranks(&self) -> Seq<u32> {
        self.bit_ranks@
    }

    /// For each code length, the slot that the last build stopped at.
    pub closed spec fn spec_rank_indexes(&self) -> Seq<usize> {
        self.rank_indexes@
    }

    /// The FSE table that the last compressed weights were read with.
    pub closed spec fn spec_weight_table(&self) -> FSETable {
        self.fse_table
    }
}

impl HuffmanTable {
    /// The written weights, one per symbol but the last.
    pub open spec fn spec_weights(&self) -> Seq<u8> {
        self.buffers.spec_weights()
    }

    /// The decode table.
    pub open spec fn spec_decode(&self) -> Seq<Entry> {
        self.buffers.spec_decode()
    }

    /// Code length of every symbol, the last one included.
    pub open spec fn spec_bits(&self) -> Seq<u8> {
        self.buffers.spec_bits()
    }

    /// Length in bits of the longest code: the public field.
    pub open spec fn spec_max_num_bits(&self) -> u8 {
        self.max_num_bits
    }

    /// How many symbols the last build found of each code length.
    pub open spec fn spec_bit_ranks(&self) -> Seq<u32> {
        self.buffers.spec_bit_ranks()
    }

    /// For each code length, the slot that the last build stopped at.
    pub open spec fn spec_rank_indexes(&self) -> Seq<usize> {
        self.buffers.spec_rank_indexes()
    }

    /// Whether the table holds nothing, as a new one does.
    pub open spec fn is_empty(&self) -> bool {
        &&& self.spec_weights().len() == 0
        &&& self.spec_decode().len() == 0
        &&& self.spec_bits().len() == 0
        &&& self.spec_max_num_bits() == 0
        &&& self.spec_bit_ranks().len() == 0
        &&& self.spec_rank_indexes().len() == 0
        &&& self.spec_weight_table().is_empty()
    }

    /// The FSE table that the last compressed weights were read with.
    pub open spec fn spec_weight_table(&self) -> FSETable {
        self.buffers.spec_weight_table()
    }

    /// Whether the table is the one that its weights stand for.
    pub open spec fn is_built(&self) -> bool {
        &&& weights_error(self.spec_weights()) is None
        &&& self.spec_max_num_bits() == max_bits(self.spec_weights())
        &&& self.spec_bits() == code_lengths(self.spec_weights())
        &&& table_matches(self.spec_weights(), self.spec_decode())
    }

    /// A table that is not built yet and holds nothing.
    pub fn new() -> (r: HuffmanTable)
        ensures
            r.is_empty(),
            !r.is_built(),
    {
        HuffmanTable {
            max_num_bits: 0,
            buffers: TableBuffers {
                decode: Vec::new(),
                weights: Vec::with_capacity(256),
                bits: Vec::with_capacity(256),
                bit_ranks: Vec::with_capacity(11),
                rank_indexes: Vec::with_capacity(11),
                fse_table: FSETable::new(),
            },
        }
    }

    /// Makes this table a copy of `other`, built if `other` is. The counts of
    /// symbols per code length are scratch of a build and are not copied.
    pub fn reinit_from(&mut self, other: &HuffmanTable)
        ensures
            final(self).spec_weights() == other.spec_weights(),
            final(self).spec_decode() == other.spec_decode(),
            final(self).spec_bits() == other.spec_bits(),
            final(self).spec_max_num_bits() == other.spec_max_num_bits(),
            final(self).spec_rank_indexes() == other.spec_rank_indexes(),
            final(self).spec_bit_ranks().len() == 0,
            final(self).spec_weight_table().same_as(&other.spec_weight_table()),
            final(self).is_built() == other.is_built(),
    {
        self.reset();
        refill(&mut self.buffers.decode, &other.buffers.decode);
        refill(&mut self.buffers.weights, &other.buffers.weights);
        self.max_num_bits = other.max_num_bits;
        refill(&mut self.buffers.bits, &other.buffers.bits);
        refill(&mut self.buffers.rank_indexes, &other.buffers.rank_indexes);
        self.buffers.fse_table.reinit_from(&other.buffers.fse_table);
    }

    /// Empties the table; it keeps its buffers.
    pub fn reset(&mut self)
        ensures
            final(self).is_empty(),
            !final(self).is_built(),
    {
        self.buffers.decode.clear();
        self.buffers.weights.clear();
        self.max_num_bits = 0;
        self.buffers.bits.clear();
        self.buffers.bit_ranks.clear();
        self.buffers.rank_indexes.clear();
        self.buffers.fse_table.reset();
    }

    /// The written weights, one per symbol but the last.
    pub fn weights(&self) -> (r: &[u8])
        ensures
            r@ == self.spec_weights(),
    {
        self.buffers.weights.as_slice()
    }

    /// Code length of every symbol, the last one included; zero for a symbol
    /// that has no code.
    pub fn code_lengths(&self) -> (r: &[u8])
        ensures
            r@ == self.spec_bits(),
    {
        self.buffers.bits.as_slice()
    }

    /// Length in bits of the longest code.
    pub fn max_bits(&self) -> (r: u8)
        ensures
            r == self.spec_max_num_bits(),
    {
        self.max_num_bits
    }

    /// Number of slots of the decode table.
    pub fn table_size(&self) -> (r: usize)
        ensures
            r == self.spec_decode().len(),
    {
        self.buffers.decode.len()
    }

    /// Slot `index` of the decode table.
    pub fn entry(&self, index: usize) -> (r: Entry)
        requires
            index < self.spec_decode().len(),
        ensures
            r == self.spec_decode()[index as int],
    {
        self.buffers.decode[index]
    }

    /// Reads a table description from the front of `source` and builds the
    /// table. Gives the number of bytes that the description takes.
    ///
    /// On an error the decode table is left empty. The bits of `source` must
    /// be countable in a `usize`.
    pub fn build_decoder(&mut self, source: &[u8]) -> (r: Result<u32, HuffmanTableError>)
        requires
            8 * source@.len() <= usize::MAX,
        ensures
            final(self).spec_weights() == weights_after_read(old(self).spec_weights(), source@),
            weight_table_after_read(
                old(self).spec_weight_table(),
                final(self).spec_weight_table(),
                source@,
            ),
            match build_decoder_spec(source@) {
                Err(e) => r == Err::<u32, HuffmanTableError>(e)
                    && final(self).spec_decode().len() == 0
                    && final(self).spec_bits() == old(self).spec_bits()
                    && final(self).spec_max_num_bits() == old(self).spec_max_num_bits()
                    && final(self).spec_bit_ranks() == old(self).spec_bit_ranks()
                    && final(self).spec_rank_indexes() == old(self).spec_rank_indexes()
                    && !final(self).is_built(),
                Ok((w, n)) => r == Ok::<u32, HuffmanTableError>(n as u32)
                    && final(self).is_built()
                    && final(self).spec_weights() == w
                    && final(self).spec_bit_ranks() == length_ranks(w)
                    && final(self).spec_rank_indexes() == rank_ends(w),
            },
    {
        self.buffers.decode.clear();
        let read = self.read_weights(source);
        proof {
            lemma_pow2_pos(max_bits(self.spec_weights()));
        }
        let bytes_used: u32 = match read {
            Ok(n) => n,
            Err(e) => {
                return Err(e);
            },
        };
        match self.build_table_from_weights() {
            Ok(_) => Ok(bytes_used),
            Err(e) => Err(e),
        }
    }

    /// Reads the weights at the front of `source` into the table. Gives the
    /// number of bytes that they take, the header byte with them. The bits of
    /// `source` must be countable in a `usize`.
    pub fn read_weights(&mut self, source: &[u8]) -> (r: Result<u32, HuffmanTableError>)
        requires
            8 * source@.len() <= usize::MAX,
        ensures
            final(self).spec_decode() == old(self).spec_decode(),
            final(self).spec_bits() == old(self).spec_bits(),
            final(self).spec_max_num_bits() == old(self).spec_max_num_bits(),
            final(self).spec_bit_ranks() == old(self).spec_bit_ranks(),
            final(self).spec_rank_indexes() == old(self).spec_rank_indexes(),
            final(self).spec_weights() == weights_after_read(old(self).spec_weights(), source@),
            weight_table_after_read(
                old(self).spec_weight_table(),
                final(self).spec_weight_table(),
                source@,
            ),
            match read_weights_spec(source@) {
                Err(e) => r == Err::<u32, HuffmanTableError>(e),
                Ok((w, n)) => r == Ok::<u32, HuffmanTableError>(n as u32)
                    && final(self).spec_weights() == w,
            },
    {
        if source.len() == 0 {
            return Err(HuffmanTableError::SourceIsEmpty);
        }
        let header: u8 = source[0];
        let rest: &[u8] = slice_subrange(source, 1, source.len());
        if header < 128 {
            if header as usize > rest.len() {
                return Err(
                    HuffmanTableError::NotEnoughBytesForWeights {
                        got_bytes: rest.len(),
                        expected_bytes: header,
                    },
                );
            }
            let used: usize = match self.buffers.fse_table.build_decoder(rest, MAX_WEIGHT_STREAM_LOG) {
                Ok(n) => n,
                Err(e) => {
                    return Err(HuffmanTableError::from(e));
                },
            };
            if used > header as usize {
                return Err(
                    HuffmanTableError::FSETableUsedTooManyBytes {
                        used,
                        available_bytes: header,
                    },
                );
            }
            let payload: &[u8] = slice_subrange(rest, used, header as usize);
            match decode_weight_stream(&self.buffers.fse_table, payload, &mut self.buffers.weights) {
                Ok(_) => {},
                Err(e) => {
                    return Err(e);
                },
            }
            Ok(1 + header as u32)
        } else {
            let num_weights: u8 = header - 127;
            let bytes_needed: usize = if num_weights % 2 == 0 {
                num_weights as usize / 2
            } else {
                (num_weights as usize / 2) + 1
            };
            if rest.len() < bytes_needed {
                return Err(
                    HuffmanTableError::NotEnoughBytesInSource {
                        got: rest.len(),
                        need: bytes_needed,
                    },
                );
            }
            read_direct_weights(rest, num_weights, &mut self.buffers.weights);
            Ok(1 + bytes_needed as u32)
        }
    }

    /// Builds the decode table from the weights that the table holds.
    ///
    /// Fails, and leaves the whole table as it was, exactly when the weights
    /// stand for no code; the error is the first check that they fail.
    pub fn build_table_from_weights(&mut self) -> (r: Result<(), HuffmanTableError>)
        ensures
            final(self).spec_weights() == old(self).spec_weights(),
            final(self).spec_weight_table() == old(self).spec_weight_table(),
            match weights_error(old(self).spec_weights()) {
                Some(e) => r == Err::<(), HuffmanTableError>(e)
                    && final(self).spec_decode() == old(self).spec_decode()
                    && final(self).spec_bits() == old(self).spec_bits()
                    && final(self).spec_max_num_bits() == old(self).spec_max_num_bits()
                    && final(self).spec_bit_ranks() == old(self).spec_bit_ranks()
                    && final(self).spec_rank_indexes() == old(self).spec_rank_indexes(),
                None => r == Ok::<(), HuffmanTableError>(()) && final(self).is_built()
                    && final(self).spec_bit_ranks() == length_ranks(old(self).spec_weights())
                    && final(self).spec_rank_indexes() == rank_ends(old(self).spec_weights()),
            },
    {
        let ghost ws = self.buffers.weights@;
        let ghost weight_table = self.buffers.fse_table;
        let n: usize = self.buffers.weights.len();
        if n > MAX_WEIGHTS {
            return Err(HuffmanTableError::TooManyWeights { got: n });
        }
        let mut weight_sum: u32 = 0;
        let mut i: usize = 0;
        while i < n
            invariant
                i <= n <= 255,
                n == ws.len(),
                self.buffers.weights@ == ws,
                self.buffers.decode@ == old(self).buffers.decode@,
                weight_sum == class_slots(ws, i as nat, 0, 256),
                weight_sum <= i * 1024,
                first_heavy(ws, 0) == first_heavy(ws, i as nat),
            decreases n - i,
        {
            let w: u8 = self.buffers.weights[i];
            if w > MAX_MAX_NUM_BITS {
                return Err(HuffmanTableError::WeightBiggerThanMaxNumBits { got: w });
            }
            let slots: u32 = if w > 0 {
                proof {
                    lemma_pow2_monotone((w - 1) as nat, 10);
                    lemma2_to64();
                }
                pow2_u32((w - 1) as u32)
            } else {
                0
            };
            weight_sum = weight_sum + slots;
            i = i + 1;
        }
        if weight_sum == 0 {
            return Err(HuffmanTableError::MissingWeights);
        }
        proof {
            lemma_bit_length_bounds(weight_sum as nat);
            lemma2_to64();
            if max_bits(ws) > 18 {
                lemma_pow2_monotone(18, (max_bits(ws) - 1) as nat);
            }
        }
        let max_bits: u8 = highest_bit_set(weight_sum) as u8;
        let left_over: u32 = pow2_u32(max_bits as u32) - weight_sum;
        if !is_power_of_two_u32(left_over) {
            return Err(HuffmanTableError::LeftoverIsNotAPowerOf2 { got: left_over });
        }
        let last_weight: u8 = highest_bit_set(left_over) as u8;
        if max_bits > MAX_MAX_NUM_BITS {
            return Err(HuffmanTableError::MaxBitsTooHigh { got: max_bits });
        }
        let ghost aw = all_weights(ws);
        let ghost m = max_bits as nat;
        let ghost total = pow2(m);
        proof {
            lemma_valid_weights(ws);
            assert(aw.len() == n + 1);
            assert(aw[n as int] == last_weight);
            lemma_pow2_monotone(m, 11);
        }

        // Code lengths, the last symbol's behind the others.
        self.buffers.bits.clear();
        let mut symbol: usize = 0;
        while symbol < n
            invariant
                symbol <= n <= 255,
                n == ws.len(),
                self.buffers.weights@ == ws,
                self.buffers.decode@ == old(self).buffers.decode@,
                aw == all_weights(ws),
                m == max_bits,
                m <= 11,
                forall|k: int| 0 <= k < n ==> #[trigger] ws[k] <= m,
                self.buffers.bits@.len() == symbol,
                self.buffers.fse_table == weight_table,
                forall|k: int|
                    0 <= k < symbol ==> #[trigger] self.buffers.bits@[k] == code_length(m, aw[k]),
            decreases n - symbol,
        {
            let w: u8 = self.buffers.weights[symbol];
            let bits: u8 = if w > 0 {
                max_bits + 1 - w
            } else {
                0
            };
            self.buffers.bits.push(bits);
            symbol = symbol + 1;
        }
        self.buffers.bits.push(max_bits + 1 - last_weight);
        self.max_num_bits = max_bits;
        assert(self.buffers.bits@ =~= code_lengths(ws));

        // How many symbols there are of each code length.
        self.buffers.bit_ranks.clear();
        self.buffers.bit_ranks.resize((max_bits + 1) as usize, 0);
        assert(forall|b: int| 0 <= b <= m ==> #[trigger] self.buffers.bit_ranks@[b] == 0);
        let mut symbol: usize = 0;
        while symbol < n + 1
            invariant
                symbol <= n + 1,
                n <= 255,
                aw.len() == n + 1,
                m == max_bits,
                m <= 11,
                self.buffers.bits@ == code_lengths(ws),
                self.buffers.bits@.len() == n + 1,
                aw == all_weights(ws),
                m == crate::canonical::max_bits(ws),
                forall|k: int| 0 <= k <= n ==> #[trigger] aw[k] <= m,
                self.buffers.bit_ranks@.len() == m + 1,
                forall|b: int|
                    0 <= b <= m ==> #[trigger] self.buffers.bit_ranks@[b] == count_weight(
                        aw,
                        symbol as nat,
                        weight_of_length(m, b),
                    ),
                forall|b: int| 0 <= b <= m ==> #[trigger] self.buffers.bit_ranks@[b] <= symbol,
                self.buffers.fse_table == weight_table,
                self.buffers.weights@ == ws,
                self.buffers.decode@ == old(self).buffers.decode@,
                self.max_num_bits == max_bits,
            decreases n + 1 - symbol,
        {
            let num_bits: u8 = self.buffers.bits[symbol];
            assert(num_bits == code_length(m, aw[symbol as int]));
            let rank: u32 = self.buffers.bit_ranks[num_bits as usize];
            self.buffers.bit_ranks.set(num_bits as usize, rank + 1);
            symbol = symbol + 1;
        }

        let ghost ranks_of_lengths = self.buffers.bit_ranks@;
        assert(ranks_of_lengths =~= length_ranks(ws));

        // The table itself; every slot is written below.
        self.buffers.decode.resize(pow2_usize(max_bits as u32), Entry { symbol: 0, num_bits: 0 });
        assert(self.buffers.decode@.len() == total);

        // First slot of each code length: the longest codes come first.
        self.buffers.rank_indexes.clear();
        self.buffers.rank_indexes.resize((max_bits + 1) as usize, 0);
        proof {
            lemma_class_slots_empty(aw, aw.len(), 0, 1);
            assert(self.buffers.rank_indexes@[m as int] == 0);
            lemma_class_slots_split(aw, aw.len(), 0, 1, 256);
        }
        let mut bits: u8 = max_bits;
        while bits >= 1
            invariant
                bits <= max_bits,
                m == max_bits,
                m <= 11,
                n <= 255,
                aw.len() == n + 1,
                total == pow2(m),
                total <= 2048,
                class_slots(aw, aw.len(), 0, 256) == total,
                forall|k: int| 0 <= k <= n ==> #[trigger] aw[k] <= m,
                self.buffers.bit_ranks@.len() == m + 1,
                self.buffers.rank_indexes@.len() == m + 1,
                forall|b: int|
                    0 <= b <= m ==> #[trigger] self.buffers.bit_ranks@[b] == count_weight(
                        aw,
                        aw.len(),
                        weight_of_length(m, b),
                    ),
                forall|b: int|
                    bits <= b <= m ==> #[trigger] self.buffers.rank_indexes@[b] == class_slots(
                        aw,
                        aw.len(),
                        0,
                        m + 1 - b,
                    ),
                self.buffers.weights@ == ws,
                self.buffers.bits@ == code_lengths(ws),
                self.buffers.decode@.len() == total,
                self.max_num_bits == max_bits,
                self.buffers.fse_table == weight_table,
                self.buffers.bit_ranks@ == ranks_of_lengths,
            decreases bits,
        {
            let ghost w: u8 = (m + 1 - bits) as u8;
            proof {
                lemma_class_slots_single(aw, aw.len(), w);
                lemma_class_slots_split(aw, aw.len(), 0, w as int, w + 1);
                lemma_class_slots_split(aw, aw.len(), 0, w + 1, 256);
                assert(weight_of_length(m, bits as int) == w);
                assert(weight_slots(w) == pow2((max_bits - bits) as nat));
            }
            let run: usize = pow2_usize((max_bits - bits) as u32);
            let rank: usize = self.buffers.bit_ranks[bits as usize] as usize;
            let below: usize = self.buffers.rank_indexes[bits as usize];
            assert(rank * run == class_slots(aw, aw.len(), w as int, w + 1));
            self.buffers.rank_indexes.set((bits - 1) as usize, below + rank * run);
            bits = bits - 1;
        }
        proof {
            // All slots are handed out: the first slot behind the shortest
            // codes is the end of the table.
            lemma_class_slots_split(aw, aw.len(), 0, (m + 1) as int, 256);
            lemma_class_slots_empty(aw, aw.len(), (m + 1) as int, 256);
            assert(self.buffers.rank_indexes@[0] == total);
            assert forall|b: int| 1 <= b <= m implies #[trigger] self.buffers.rank_indexes@[b]
                == class_slots(aw, aw.len(), 0, m + 1 - b) + class_slots(
                aw,
                0,
                m + 1 - b,
                m + 2 - b,
            ) by {}
        }

        // Each symbol takes the next free slots of its code length.
        let mut symbol: usize = 0;
        while symbol < n + 1
            invariant
                symbol <= n + 1,
                n <= 255,
                aw.len() == n + 1,
                m == max_bits,
                1 <= m <= 11,
                total == pow2(m),
                total <= 2048,
                class_slots(aw, aw.len(), 0, 256) == total,
                forall|k: int| 0 <= k <= n ==> #[trigger] aw[k] <= m,
                self.buffers.bits@ == code_lengths(ws),
                self.buffers.bits@.len() == n + 1,
                aw == all_weights(ws),
                m == crate::canonical::max_bits(ws),
                self.buffers.rank_indexes@.len() == m + 1,
                self.buffers.decode@.len() == total,
                forall|b: int|
                    1 <= b <= m ==> #[trigger] self.buffers.rank_indexes@[b] == class_slots(
                        aw,
                        aw.len(),
                        0,
                        m + 1 - b,
                    ) + class_slots(aw, symbol as nat, m + 1 - b, m + 2 - b),
                forall|j: int, t: int|
                    0 <= j < symbol && #[trigger] in_run(aw, j, t) ==> self.buffers.decode@[t]
                        == run_entry(aw, m, j),
                self.buffers.weights@ == ws,
                self.max_num_bits == max_bits,
                self.buffers.fse_table == weight_table,
                self.buffers.bit_ranks@ == ranks_of_lengths,
                self.buffers.rank_indexes@[0] == total,
            decreases n + 1 - symbol,
        {
            let bits_for_symbol: u8 = self.buffers.bits[symbol];
            assert(bits_for_symbol == code_length(m, aw[symbol as int]));
            if bits_for_symbol != 0 {
                let ghost w: u8 = aw[symbol as int];
                let base_idx: usize = self.buffers.rank_indexes[bits_for_symbol as usize];
                let len: usize = pow2_usize((max_bits - bits_for_symbol) as u32);
                proof {
                    assert(m + 1 - bits_for_symbol == w);
                    assert(base_idx == run_start(aw, symbol as int));
                    assert(len == weight_slots(w));
                    crate::canonical::lemma_weight_slots_positive(w);
                    assert(in_run(aw, symbol as int, base_idx as int));
                    assert(in_run(aw, symbol as int, base_idx + len - 1));
                    lemma_run_in_table(aw, symbol as int, base_idx + len - 1);
                }
                self.buffers.rank_indexes.set(bits_for_symbol as usize, base_idx + len);
                let ghost ranks = self.buffers.rank_indexes@;
                let mut idx: usize = 0;
                while idx < len
                    invariant
                        idx <= len,
                        total <= 2048,
                        class_slots(aw, aw.len(), 0, 256) == total,
                        self.buffers.rank_indexes@ == ranks,
                        self.buffers.fse_table == weight_table,
                        self.buffers.bit_ranks@ == ranks_of_lengths,
                        self.buffers.bits@ == code_lengths(ws),
                        self.buffers.weights@ == ws,
                        self.max_num_bits == max_bits,
                        symbol <= n,
                        n <= 255,
                        aw.len() == n + 1,
                        base_idx + len <= total,
                        self.buffers.decode@.len() == total,
                        base_idx == run_start(aw, symbol as int),
                        len == weight_slots(aw[symbol as int]),
                        aw[symbol as int] > 0,
                        bits_for_symbol == m + 1 - aw[symbol as int],
                        forall|j: int, t: int|
                            0 <= j < symbol && #[trigger] in_run(aw, j, t) ==> self.buffers.decode@[t]
                                == run_entry(aw, m, j),
                        forall|t: int|
                            base_idx <= t < base_idx + idx ==> #[trigger] self.buffers.decode@[t]
                                == run_entry(aw, m, symbol as int),
                    decreases len - idx,
                {
                    let ghost before = self.buffers.decode@;
                    self.buffers.decode.set(
                        base_idx + idx,
                        Entry { symbol: symbol as u8, num_bits: bits_for_symbol },
                    );
                    proof {
                        let slot = base_idx + idx;
                        assert(in_run(aw, symbol as int, slot));
                        assert forall|j: int, t: int|
                            0 <= j < symbol && #[trigger] in_run(aw, j, t) implies self.buffers.decode@[t]
                            == run_entry(aw, m, j) by {
                            lemma_run_in_table(aw, j, t);
                            if t == slot {
                                lemma_runs_disjoint(aw, j, symbol as int, slot);
                            }
                            assert(self.buffers.decode@[t] == before[t]);
                        }
                    }
                    idx = idx + 1;
                }
                proof {
                    assert forall|b: int| 1 <= b <= m implies #[trigger] self.buffers.rank_indexes@[b]
                        == class_slots(aw, aw.len(), 0, m + 1 - b) + class_slots(
                        aw,
                        (symbol + 1) as nat,
                        m + 1 - b,
                        m + 2 - b,
                    ) by {}
                }
            } else {
                proof {
                    assert(aw[symbol as int] == 0);
                    assert forall|b: int| 1 <= b <= m implies #[trigger] self.buffers.rank_indexes@[b]
                        == class_slots(aw, aw.len(), 0, m + 1 - b) + class_slots(
                        aw,
                        (symbol + 1) as nat,
                        m + 1 - b,
                        m + 2 - b,
                    ) by {}
                }
            }
            symbol = symbol + 1;
        }
        proof {
            assert forall|t: int| 0 <= t < self.buffers.decode@.len() implies entry_matches(
                aw,
                m,
                t,
                #[trigger] self.buffers.decode@[t],
            ) by {
                let j = lemma_slot_has_owner(aw, t);
                assert(in_run(aw, j, t));
                assert(self.buffers.decode@[t] == run_entry(aw, m, j));
            }
            assert forall|b: int| 0 <= b <= m implies #[trigger] self.buffers.rank_indexes@[b]
                == class_slots(aw, aw.len(), 0, m + 2 - b) && class_slots(
                aw,
                aw.len(),
                0,
                m + 2 - b,
            ) <= total by {
                lemma_class_slots_split(aw, aw.len(), 0, m + 1 - b, m + 2 - b);
                lemma_class_slots_split(aw, aw.len(), 0, m + 2 - b, 256);
                if b == 0 {
                    lemma_class_slots_empty(aw, aw.len(), (m + 1) as int, (m + 2) as int);
                }
            }
            assert(self.buffers.rank_indexes@ =~= rank_ends(ws));
        }
        Ok(())
    }
}

} // verus!

verus! {

impl Default for HuffmanTable {
    /// A table that is not built yet and holds nothing.
    fn default() -> (r: HuffmanTable)
        ensures
            r.is_empty(),
            !r.is_built(),
    {
        HuffmanTable::new()
    }
}

} // verus!
