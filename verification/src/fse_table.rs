//! The FSE decode table: read from its description and built state by state.

use vstd::prelude::*;
use vstd::arithmetic::power2::*;
use crate::arith::{
    highest_bit_set,
    is_power_of_two_u32,
    lemma_bit_length_bounds,
    lemma_pow2_monotone,
    pow2_u32,
    pow2_usize,
};
use crate::bit_reader::BitReader;
use crate::errors::FSETableError;
use crate::fse_format::{
    decoded_value,
    lemma_decoded_value_bound,
    lemma_total_states_push,
    lemma_total_states_same_prefix,
    lemma_width_at_least_two,
    parse_probabilities,
    skip_zeros,
    finish_description,
    table_description,
    total_states,
    valid_probabilities,
    value_is_short,
    zero_run,
    ACC_LOG_OFFSET,
    MAX_SYMBOLS,
};
use crate::fse_layout::{
    count_of,
    entry_in_table,
    lemma_count_of_holds,
    lemma_raw_position_next,
    lemma_spread_order_index,
    lemma_state_in_table,
    negative_count,
    positive_states,
    raw_position,
    slices_log,
    spread_limit,
    spread_order,
    spread_step,
    state_base_line,
    state_bits,
    FSEEntry,
};
use crate::fse_spread::{
    decode_entry,
    decode_table,
    initial_spread,
    lemma_negative_layout_len,
    lemma_spread_done,
    lemma_spread_init,
    lemma_spread_limit,
    lemma_spread_place,
    lemma_spread_room,
    lemma_spread_skip,
    negative_layout,
    spread_ok,
    state_counts,
    symbol_layout,
};

verus! {

/// An FSE decode table, with the buffers it is built in.
pub struct FSETable {
    decode: Vec<FSEEntry>,
    accuracy_log: u8,
    symbol_probabilities: Vec<i32>,
    symbol_counter: Vec<u32>,
}

/// Splits the bits `raw` into the value they stand for and whether the value
/// was written with one bit less than `width`.
fn decode_value(raw: u32, max_remaining: u32, width: u32) -> (r: (u32, bool))
    requires
        2 <= max_remaining <= 0x10_0001,
        width == crate::arith::bit_length(max_remaining as nat),
        raw < pow2(width as nat),
    ensures
        r.0 == decoded_value(raw as nat, max_remaining as nat),
        r.1 == value_is_short(raw as nat, max_remaining as nat),
        r.0 <= max_remaining,
{
    proof {
        lemma_bit_length_bounds(max_remaining as nat);
        lemma_width_at_least_two(max_remaining as nat);
        lemma2_to64();
        if width > 21 {
            lemma_pow2_monotone(21, (width - 1) as nat);
        }
        lemma_pow2_unfold(width as nat);
        lemma_pow2_monotone((width - 1) as nat, 20);
        lemma_decoded_value_bound(raw as nat, max_remaining as nat);
    }
    let half: u32 = pow2_u32(width - 1);
    let threshold: u32 = half * 2 - 1 - max_remaining;
    let small: u32 = raw % half;
    if small < threshold {
        (small, true)
    } else if raw >= half {
        (raw - threshold, false)
    } else {
        (raw, false)
    }
}

/// Base line and bit count of state number `count` of a symbol that has
/// `prob` states in a table of `2^al` states.
fn calc_baseline_and_numbits(al: u8, prob: u32, count: u32) -> (r: (u32, u8))
    requires
        al <= 20,
        1 <= prob <= pow2(al as nat),
        count < prob,
    ensures
        r.0 == state_base_line(al as nat, prob as nat, count as nat),
        r.1 == state_bits(al as nat, prob as nat, count as nat),
        entry_in_table(FSEEntry { base_line: r.0, num_bits: r.1, symbol: 0 }, al as nat),
{
    proof {
        lemma_state_in_table(al as nat, prob as nat, count as nat);
        lemma_pow2_monotone(al as nat, 20);
        lemma_pow2_monotone((al - slices_log(prob as nat)) as nat, 20);
        lemma2_to64();
    }
    let top: u32 = highest_bit_set(prob);
    let log: u32 = if is_power_of_two_u32(prob) {
        top - 1
    } else {
        top
    };
    let slices: u32 = pow2_u32(log);
    let doubles: u32 = slices - prob;
    let width: u32 = pow2_u32(al as u32 - log);
    if count < doubles {
        proof {
            let w = width as int;
            let b = state_base_line(al as nat, prob as nat, count as nat) as int;
            assert(b == (prob - doubles) * w + count * w * 2);
            assert((prob - doubles) * w >= 0 && count * w >= 0 && count * w * 2 >= 0) by (nonlinear_arith)
                requires
                    prob >= doubles,
                    w > 0,
                    count >= 0,
            ;
        }
        ((prob - doubles) * width + count * width * 2, (al as u32 - log + 1) as u8)
    } else {
        ((count - doubles) * width, (al as u32 - log) as u8)
    }
}

impl FSETable {
    /// The states of the table.
    pub closed spec fn spec_decode(&self) -> Seq<FSEEntry> {
        self.decode@
    }

    /// The table has `2^accuracy_log` states once it is built; zero before.
    pub closed spec fn spec_accuracy_log(&self) -> nat {
        self.accuracy_log as nat
    }

    /// The probability of every symbol.
    pub closed spec fn spec_probabilities(&self) -> Seq<i32> {
        self.symbol_probabilities@
    }

    /// How many states of each symbol the last build has numbered.
    pub closed spec fn spec_symbol_counter(&self) -> Seq<u32> {
        self.symbol_counter@
    }

    /// Whether the table holds nothing, as a new one does.
    pub open spec fn is_empty(&self) -> bool {
        &&& self.spec_accuracy_log() == 0
        &&& self.spec_decode().len() == 0
        &&& self.spec_probabilities().len() == 0
        &&& self.spec_symbol_counter().len() == 0
    }

    /// Whether this table holds what `other` holds.
    pub open spec fn same_as(&self, other: &FSETable) -> bool {
        &&& self.spec_accuracy_log() == other.spec_accuracy_log()
        &&& self.spec_decode() == other.spec_decode()
        &&& self.spec_probabilities() == other.spec_probabilities()
        &&& self.spec_symbol_counter() == other.spec_symbol_counter()
    }

    /// Whether the table is the one that its probabilities stand for.
    pub open spec fn is_built(&self) -> bool {
        &&& valid_probabilities(self.spec_probabilities(), self.spec_accuracy_log())
        &&& self.spec_decode() == decode_table(self.spec_probabilities(), self.spec_accuracy_log())
        &&& self.spec_symbol_counter() == state_counts(self.spec_probabilities())
        &&& forall|t: int|
            0 <= t < self.spec_decode().len() ==> entry_in_table(
                #[trigger] self.spec_decode()[t],
                self.spec_accuracy_log(),
            )
    }

    /// A table that is not built yet and holds nothing.
    pub fn new() -> (r: FSETable)
        ensures
            r.is_empty(),
            !r.is_built(),
    {
        FSETable {
            decode: Vec::new(),
            accuracy_log: 0,
            symbol_probabilities: Vec::with_capacity(256),
            symbol_counter: Vec::with_capacity(256),
        }
    }

    /// Empties the table; it keeps its buffers.
    pub fn reset(&mut self)
        ensures
            final(self).is_empty(),
            !final(self).is_built(),
    {
        self.symbol_counter.clear();
        self.symbol_probabilities.clear();
        self.decode.clear();
        self.accuracy_log = 0;
    }

    /// Makes this table a copy of `other`, built if `other` is.
    pub fn reinit_from(&mut self, other: &FSETable)
        ensures
            final(self).same_as(other),
            final(self).is_built() == other.is_built(),
    {
        self.reset();
        crate::arith::refill(&mut self.symbol_counter, &other.symbol_counter);
        crate::arith::refill(&mut self.symbol_probabilities, &other.symbol_probabilities);
        crate::arith::refill(&mut self.decode, &other.decode);
        self.accuracy_log = other.accuracy_log;
    }

    /// The accuracy log; zero while the table is not built.
    pub fn accuracy_log(&self) -> (r: u8)
        ensures
            r == self.spec_accuracy_log(),
    {
        self.accuracy_log
    }

    /// Number of states.
    pub fn num_states(&self) -> (r: usize)
        ensures
            r == self.spec_decode().len(),
    {
        self.decode.len()
    }

    /// State `state` of the table.
    pub fn entry(&self, state: usize) -> (r: FSEEntry)
        requires
            state < self.spec_decode().len(),
        ensures
            r == self.spec_decode()[state as int],
    {
        self.decode[state]
    }

    /// Reads the table description at the front of `source` and builds the
    /// table. Gives the number of bytes that the description takes.
    ///
    /// On an error the table is left empty.
    pub fn build_decoder(&mut self, source: &[u8], max_log: u8) -> (r: Result<usize, FSETableError>)
        requires
            8 * source@.len() <= usize::MAX,
        ensures
            match table_description(source@, max_log) {
                Err(e) => r == Err::<usize, FSETableError>(e) && final(self).is_empty(),
                Ok(d) => r == Ok::<usize, FSETableError>(d.bytes_used as usize)
                    && d.bytes_used <= source@.len()
                    && final(self).is_built()
                    && final(self).spec_accuracy_log() == d.accuracy_log
                    && final(self).spec_probabilities() == d.probabilities,
            },
    {
        self.accuracy_log = 0;
        match self.read_probabilities(source, max_log) {
            Err(e) => {
                self.reset();
                Err(e)
            },
            Ok(bytes_read) => {
                self.build_decoding_table();
                Ok(bytes_read)
            },
        }
    }

    /// Reads the accuracy log and the probabilities at the front of `source`.
    /// Gives the number of bytes read. The accuracy log is set only on success.
    fn read_probabilities(&mut self, source: &[u8], max_log: u8) -> (r: Result<
        usize,
        FSETableError,
    >)
        requires
            8 * source@.len() <= usize::MAX,
            old(self).accuracy_log == 0,
        ensures
            match table_description(source@, max_log) {
                Err(e) => r == Err::<usize, FSETableError>(e) && final(self).accuracy_log == 0,
                Ok(d) => r == Ok::<usize, FSETableError>(d.bytes_used as usize)
                    && d.bytes_used <= source@.len()
                    && final(self).accuracy_log == d.accuracy_log
                    && final(self).symbol_probabilities@ == d.probabilities
                    && valid_probabilities(d.probabilities, d.accuracy_log),
            },
    {
        self.symbol_probabilities.clear();
        let ghost src = source@;
        let mut br = BitReader::new(source);
        let first: u64 = match br.get_bits(4) {
            Ok(v) => v,
            Err(e) => {
                return Err(FSETableError::GetBitsError(e));
            },
        };
        proof {
            lemma2_to64();
        }
        let al: u8 = ACC_LOG_OFFSET + first as u8;
        if al > max_log {
            return Err(FSETableError::AccLogTooBig { got: al, max: max_log });
        }
        let ghost aln = al as nat;
        let ghost whole = parse_probabilities(src, aln, 4, 0, Seq::empty());
        proof {
            lemma_pow2_monotone(aln, 20);
        }
        let probability_sum: u32 = pow2_u32(al as u32);
        let mut counter: u32 = 0;
        assert(self.symbol_probabilities@ =~= Seq::<i32>::empty());
        while counter < probability_sum
            invariant
                br.source() == src,
                8 * src.len() <= usize::MAX,
                br.position() <= 8 * src.len(),
                5 <= al <= 20,
                aln == al,
                probability_sum == pow2(aln),
                probability_sum <= 0x10_0000,
                counter <= probability_sum,
                self.accuracy_log == 0,
                src == source@,
                table_description(src, max_log) == finish_description(aln, whole),
                whole == parse_probabilities(
                    src,
                    aln,
                    br.position(),
                    counter as nat,
                    self.symbol_probabilities@,
                ),
                total_states(self.symbol_probabilities@, self.symbol_probabilities@.len())
                    == counter,
                forall|i: int|
                    0 <= i < self.symbol_probabilities@.len() ==> -1
                        <= #[trigger] self.symbol_probabilities@[i] <= probability_sum,
            decreases 8 * src.len() - br.position(),
        {
            let max_remaining: u32 = probability_sum - counter + 1;
            let width: u32 = highest_bit_set(max_remaining);
            let ghost pos0 = br.position();
            let ghost probs0 = self.symbol_probabilities@;
            proof {
                lemma_width_at_least_two(max_remaining as nat);
                lemma_bit_length_bounds(max_remaining as nat);
                lemma2_to64();
                if width > 21 {
                    lemma_pow2_monotone(21, (width - 1) as nat);
                }
                lemma_pow2_monotone(width as nat, 21);
            }
            let raw: u32 = match br.get_bits(width as usize) {
                Ok(v) => v as u32,
                Err(e) => {
                    assert(whole == Err::<(Seq<i32>, nat), FSETableError>(
                        FSETableError::GetBitsError(e),
                    ));
                    return Err(FSETableError::GetBitsError(e));
                },
            };
            let (value, short) = decode_value(raw, max_remaining, width);
            if short {
                br.return_bits(1);
            }
            let prob: i32 = value as i32 - 1;
            self.symbol_probabilities.push(prob);
            proof {
                lemma_total_states_push(probs0, prob);
            }
            if prob != 0 {
                if prob > 0 {
                    counter = counter + prob as u32;
                } else {
                    counter = counter + 1;
                }
            } else {
                let ghost pos1 = br.position();
                let ghost probs1 = self.symbol_probabilities@;
                let mut more: bool = true;
                while more
                    invariant
                        br.source() == src,
                        8 * src.len() <= usize::MAX,
                        br.position() <= 8 * src.len(),
                        pos0 < pos1 <= br.position(),
                        self.accuracy_log == 0,
                        counter < probability_sum,
                        probability_sum == pow2(aln),
                        src == source@,
                        table_description(src, max_log) == finish_description(aln, whole),
                        whole == match skip_zeros(src, pos1, probs1) {
                            Err(e) => Err(e),
                            Ok((longer, behind)) => parse_probabilities(
                                src,
                                aln,
                                behind,
                                counter as nat,
                                longer,
                            ),
                        },
                        more ==> skip_zeros(src, pos1, probs1) == skip_zeros(
                            src,
                            br.position(),
                            self.symbol_probabilities@,
                        ),
                        !more ==> skip_zeros(src, pos1, probs1) == Ok::<
                            (Seq<i32>, nat),
                            FSETableError,
                        >((self.symbol_probabilities@, br.position())),
                        total_states(
                            self.symbol_probabilities@,
                            self.symbol_probabilities@.len(),
                        ) == counter,
                        forall|i: int|
                            0 <= i < self.symbol_probabilities@.len() ==> -1
                                <= #[trigger] self.symbol_probabilities@[i] <= probability_sum,
                    decreases 8 * src.len() - br.position() + if more { 1int } else { 0int },
                {
                    let ghost before = self.symbol_probabilities@;
                    let run: u64 = match br.get_bits(2) {
                        Ok(v) => v,
                        Err(e) => {
                            assert(whole == Err::<(Seq<i32>, nat), FSETableError>(
                                FSETableError::GetBitsError(e),
                            ));
                            return Err(FSETableError::GetBitsError(e));
                        },
                    };
                    proof {
                        lemma2_to64();
                    }
                    let mut pushed: u64 = 0;
                    while pushed < run
                        invariant
                            pushed <= run < 4,
                            self.accuracy_log == 0,
                            self.symbol_probabilities@ == before + zero_run(pushed as nat),
                        decreases run - pushed,
                    {
                        self.symbol_probabilities.push(0);
                        pushed = pushed + 1;
                        assert(self.symbol_probabilities@ =~= before + zero_run(pushed as nat));
                    }
                    proof {
                        let after = self.symbol_probabilities@;
                        assert(after == before + zero_run(run as nat));
                        lemma_total_states_zero_run(before, run as nat);
                    }
                    more = run == 3;
                }
            }
        }
        assert(whole == Ok::<(Seq<i32>, nat), FSETableError>(
            (self.symbol_probabilities@, br.position()),
        ));
        if self.symbol_probabilities.len() > MAX_SYMBOLS {
            return Err(FSETableError::TooManySymbols { got: self.symbol_probabilities.len() });
        }
        let bits_read: usize = br.bits_read();
        let bytes_read: usize = if bits_read % 8 == 0 {
            bits_read / 8
        } else {
            (bits_read / 8) + 1
        };
        self.accuracy_log = al;
        Ok(bytes_read)
    }

    /// Builds the states from the probabilities that the table holds.
    fn build_decoding_table(&mut self)
        requires
            valid_probabilities(old(self).symbol_probabilities@, old(self).accuracy_log as nat),
        ensures
            final(self).symbol_probabilities@ == old(self).symbol_probabilities@,
            final(self).accuracy_log == old(self).accuracy_log,
            final(self).is_built(),
    {
        let al: u8 = self.accuracy_log;
        let ghost aln = al as nat;
        let ghost probs = self.symbol_probabilities@;
        let ghost limit = spread_limit(probs, aln);
        proof {
            lemma_pow2_monotone(aln, 20);
            lemma_pow2_monotone((aln - 1) as nat, 20);
            lemma_pow2_monotone((aln - 3) as nat, 20);
            lemma2_to64();
            lemma_spread_limit(probs, aln);
        }
        let table_size: usize = pow2_usize(al as u32);
        let num_symbols: usize = self.symbol_probabilities.len();
        self.decode.clear();
        self.decode.resize(table_size, FSEEntry { base_line: 0, num_bits: 0, symbol: 0 });

        // The symbols of probability -1 take the last states.
        let mut negative_idx: usize = table_size;
        let mut symbol: usize = 0;
        while symbol < num_symbols
            invariant
                symbol <= num_symbols,
                num_symbols == probs.len(),
                self.symbol_probabilities@ == probs,
                self.accuracy_log == al,
                aln == al,
                valid_probabilities(probs, aln),
                table_size == pow2(aln),
                self.decode@.len() == table_size,
                negative_idx == table_size - negative_count(probs, symbol as nat),
                negative_idx >= limit,
                limit + negative_count(probs, probs.len()) == table_size,
                forall|t: int|
                    negative_idx <= t < table_size ==> #[trigger] self.decode@[t] == (FSEEntry {
                        symbol: negative_layout(probs, table_size as nat, symbol as nat)[t] as u8,
                        base_line: 0,
                        num_bits: al,
                    }),
            decreases num_symbols - symbol,
        {
            proof {
                lemma_negative_layout_len(probs, table_size as nat, symbol as nat);
                lemma_negative_layout_len(probs, table_size as nat, (symbol + 1) as nat);
                crate::fse_layout::lemma_negative_count_monotone(
                    probs,
                    (symbol + 1) as nat,
                    probs.len(),
                );
            }
            if self.symbol_probabilities[symbol] == -1 {
                negative_idx = negative_idx - 1;
                self.decode.set(
                    negative_idx,
                    FSEEntry { symbol: symbol as u8, base_line: 0, num_bits: al },
                );
            }
            symbol = symbol + 1;
        }
        assert(negative_idx == limit);
        let ghost top = self.decode@;

        // The others are spread over the states below.
        let ghost mut g = initial_spread(probs, aln);
        proof {
            lemma_spread_init(probs, aln);
            lemma_raw_position_next(aln, 0);
        }
        let step: usize = pow2_usize((al - 1) as u32) + pow2_usize((al - 3) as u32) + 3;
        let mut position: usize = 0;
        let mut symbol: usize = 0;
        while symbol < num_symbols
            invariant
                symbol <= num_symbols,
                num_symbols == probs.len(),
                self.symbol_probabilities@ == probs,
                self.accuracy_log == al,
                aln == al,
                valid_probabilities(probs, aln),
                table_size == pow2(aln),
                table_size <= 0x10_0000,
                negative_idx == limit,
                limit == spread_limit(probs, aln),
                limit == spread_order(probs, probs.len()).len(),
                limit <= table_size,
                step == spread_step(aln),
                step < table_size,
                self.decode@.len() == table_size,
                top.len() == table_size,
                spread_ok(probs, aln, g),
                position == raw_position(aln, g.j),
                position < table_size,
                g.k == spread_order(probs, symbol as nat).len(),
                forall|t: int|
                    0 <= t < limit && g.layout[t] >= 0 ==> (#[trigger] self.decode@[t]).symbol
                        == g.layout[t],
                forall|t: int| limit <= t < table_size ==> #[trigger] self.decode@[t] == top[t],
            decreases num_symbols - symbol,
        {
            let prob: i32 = self.symbol_probabilities[symbol];
            if prob > 0 {
                let mut given: i32 = 0;
                while given < prob
                    invariant
                        0 <= given <= prob,
                        symbol < num_symbols,
                        prob == probs[symbol as int],
                        num_symbols == probs.len(),
                        self.symbol_probabilities@ == probs,
                        self.accuracy_log == al,
                        aln == al,
                        valid_probabilities(probs, aln),
                        table_size == pow2(aln),
                        table_size <= 0x10_0000,
                        negative_idx == limit,
                        limit == spread_limit(probs, aln),
                        limit == spread_order(probs, probs.len()).len(),
                        limit <= table_size,
                        step == spread_step(aln),
                        step < table_size,
                        self.decode@.len() == table_size,
                        top.len() == table_size,
                        spread_ok(probs, aln, g),
                        position == raw_position(aln, g.j),
                        position < table_size,
                        g.k == spread_order(probs, symbol as nat).len() + given,
                        forall|t: int|
                            0 <= t < limit && g.layout[t] >= 0 ==> (
                            #[trigger] self.decode@[t]).symbol == g.layout[t],
                        forall|t: int|
                            limit <= t < table_size ==> #[trigger] self.decode@[t] == top[t],
                    decreases prob - given,
                {
                    proof {
                        lemma_spread_order_index(probs, symbol as nat, given as nat);
                    }
                    while position >= negative_idx
                        invariant
                            aln == al,
                            valid_probabilities(probs, aln),
                            table_size == pow2(aln),
                            table_size <= 0x10_0000,
                            negative_idx == limit,
                            limit == spread_limit(probs, aln),
                            step == spread_step(aln),
                            step < table_size,
                            spread_ok(probs, aln, g),
                            position == raw_position(aln, g.j),
                            position < table_size,
                            g.k == spread_order(probs, symbol as nat).len() + given,
                            g.k < limit,
                            forall|t: int|
                                0 <= t < limit && g.layout[t] >= 0 ==> (
                                #[trigger] self.decode@[t]).symbol == g.layout[t],
                        decreases table_size - g.j,
                    {
                        proof {
                            lemma_spread_room(probs, aln, g);
                            lemma_raw_position_next(aln, g.j);
                            let g2 = lemma_spread_skip(probs, aln, g);
                            lemma_raw_position_next(aln, g2.j);
                            g = g2;
                        }
                        position = (position + step) % table_size;
                    }
                    let ghost before = self.decode@;
                    self.decode.set(
                        position,
                        FSEEntry { symbol: symbol as u8, base_line: 0, num_bits: 0 },
                    );
                    proof {
                        lemma_spread_room(probs, aln, g);
                        lemma_raw_position_next(aln, g.j);
                        let g2 = lemma_spread_place(probs, aln, g);
                        lemma_raw_position_next(aln, g2.j);
                        assert forall|t: int| 0 <= t < limit && g2.layout[t] >= 0 implies (
                        #[trigger] self.decode@[t]).symbol == g2.layout[t] by {
                            if t != position {
                                assert(self.decode@[t] == before[t]);
                                assert(g2.layout[t] == g.layout[t]);
                            }
                        }
                        g = g2;
                    }
                    position = (position + step) % table_size;
                    given = given + 1;
                }
                assert(spread_order(probs, (symbol + 1) as nat).len() == spread_order(
                    probs,
                    symbol as nat,
                ).len() + prob);
            } else {
                assert(spread_order(probs, (symbol + 1) as nat).len() == spread_order(
                    probs,
                    symbol as nat,
                ).len());
            }
            symbol = symbol + 1;
        }
        let ghost layout = g.layout;
        proof {
            lemma_spread_done(probs, aln, g);
        }

        // Each state gets its share of the table, by its number among the
        // states of its symbol.
        self.symbol_counter.clear();
        self.symbol_counter.resize(num_symbols, 0);
        assert(forall|s: int| 0 <= s < num_symbols ==> #[trigger] self.symbol_counter@[s] == 0);
        let mut idx: usize = 0;
        while idx < negative_idx
            invariant
                idx <= negative_idx,
                num_symbols == probs.len(),
                num_symbols <= 256,
                self.symbol_probabilities@ == probs,
                self.accuracy_log == al,
                aln == al,
                valid_probabilities(probs, aln),
                table_size == pow2(aln),
                negative_idx == limit,
                limit == spread_limit(probs, aln),
                limit <= table_size,
                self.decode@.len() == table_size,
                top.len() == table_size,
                layout == symbol_layout(probs, aln),
                layout.len() == limit,
                forall|t: int|
                    0 <= t < limit ==> 0 <= #[trigger] layout[t] < probs.len() && probs[layout[t]]
                        > 0,
                forall|s: int|
                    0 <= s < probs.len() ==> #[trigger] count_of(layout, limit, s)
                        == positive_states(probs[s]),
                self.symbol_counter@.len() == num_symbols,
                forall|s: int|
                    0 <= s < num_symbols ==> #[trigger] self.symbol_counter@[s] == count_of(
                        layout,
                        idx as nat,
                        s,
                    ),
                forall|t: int|
                    0 <= t < idx ==> #[trigger] self.decode@[t] == decode_entry(probs, aln, t),
                forall|t: int|
                    0 <= t < idx ==> entry_in_table(#[trigger] self.decode@[t], aln),
                forall|t: int|
                    idx <= t < limit ==> (#[trigger] self.decode@[t]).symbol == layout[t],
                forall|t: int| limit <= t < table_size ==> #[trigger] self.decode@[t] == top[t],
            decreases negative_idx - idx,
        {
            let symbol: u8 = self.decode[idx].symbol;
            let prob: i32 = self.symbol_probabilities[symbol as usize];
            let count: u32 = self.symbol_counter[symbol as usize];
            proof {
                assert(layout[idx as int] == symbol);
                lemma_count_of_holds(layout, limit, idx as int, symbol as int);
                assert(count_of(layout, limit, symbol as int) == positive_states(
                    probs[symbol as int],
                ));
                crate::fse_layout::lemma_count_of_bound(layout, idx as nat, symbol as int);
            }
            let (base_line, num_bits) = calc_baseline_and_numbits(al, prob as u32, count);
            let ghost counters = self.symbol_counter@;
            self.symbol_counter.set(symbol as usize, count + 1);
            self.decode.set(idx, FSEEntry { symbol, base_line, num_bits });
            proof {
                assert forall|s: int| 0 <= s < num_symbols implies #[trigger] self.symbol_counter@[s]
                    == count_of(layout, (idx + 1) as nat, s) by {
                    assert(counters[s] == count_of(layout, idx as nat, s));
                }
            }
            idx = idx + 1;
        }
        proof {
            lemma_negative_layout_len(probs, table_size as nat, probs.len());
            assert forall|t: int| 0 <= t < table_size implies #[trigger] self.decode@[t]
                == decode_entry(probs, aln, t) && entry_in_table(self.decode@[t], aln) by {
                if t >= limit {
                    assert(self.decode@[t] == top[t]);
                }
            }
            assert(self.decode@ =~= decode_table(probs, aln));
            assert(self.symbol_counter@ =~= state_counts(probs));
        }
    }
}

/// Zero probabilities take no states.
proof fn lemma_total_states_zero_run(probs: Seq<i32>, n: nat)
    ensures
        total_states(probs + zero_run(n), probs.len() + n) == total_states(probs, probs.len()),
    decreases n,
{
    let longer = probs + zero_run(n);
    if n == 0 {
        assert(longer =~= probs);
    } else {
        let shorter = probs + zero_run((n - 1) as nat);
        lemma_total_states_zero_run(probs, (n - 1) as nat);
        lemma_total_states_same_prefix(longer, shorter, shorter.len());
    }
}

} // verus!
