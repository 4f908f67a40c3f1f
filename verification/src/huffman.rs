//! Canonical prefix-code tables.
//!
//! This is not a generic implementation of prefix codes, but one that uses the
//! restrictions that the deflate format puts on them: a code is at most 15 bits long, and
//! the codes follow from the lengths alone.

use crate::bit::{
    bit_count, code_value, lemma_bits_value_bound, lemma_code_value_bound,
    lemma_code_value_front, lemma_code_value_prefix, lemma_code_value_step, BitRead,
};
use crate::error::Error;
use vstd::arithmetic::power2::{
    lemma2_to64, lemma_pow2_pos, lemma_pow2_strictly_increases, lemma_pow2_unfold, pow2,
};
use vstd::bits::lemma_u32_shl_is_mul;
use vstd::prelude::*;

verus! {

/// The longest code that the format allows.
pub const MAX_BITS: u8 = 15;

/// The lengths of a sequence of `(symbol, length)` pairs.
pub open spec fn code_lengths<S>(pairs: Seq<(S, u8)>) -> Seq<u8> {
    Seq::new(pairs.len(), |i: int| pairs[i].1)
}

/// Every length is in `1..=15`.
pub open spec fn valid_lengths(lens: Seq<u8>) -> bool {
    forall|i: int| 0 <= i < lens.len() ==> 1 <= #[trigger] lens[i] <= MAX_BITS
}

/// How many of the first `upto` lengths equal `len`.
pub open spec fn count_of(lens: Seq<u8>, len: nat, upto: nat) -> nat
    decreases upto,
{
    if upto == 0 {
        0
    } else {
        count_of(lens, len, (upto - 1) as nat) + if lens[upto - 1] as nat == len {
            1nat
        } else {
            0nat
        }
    }
}

/// The first code of length `len`: zero for length 1, and for each further length the
/// code after the last one of the length before, with a zero bit appended.
pub open spec fn first_code(lens: Seq<u8>, len: nat) -> nat
    decreases len, 1nat,
{
    if len <= 1 {
        0
    } else {
        2 * code_limit(lens, (len - 1) as nat)
    }
}

/// The code after the last code of length `len`.
pub open spec fn code_limit(lens: Seq<u8>, len: nat) -> nat
    decreases len, 2nat,
{
    if len == 0 {
        0
    } else {
        first_code(lens, len) + count_of(lens, len, lens.len())
    }
}

/// The code of the symbol at index `i`: the codes of one length are consecutive, in the
/// order of the symbols.
pub open spec fn canonical_code(lens: Seq<u8>, i: int) -> nat {
    first_code(lens, lens[i] as nat) + count_of(lens, lens[i] as nat, i as nat)
}

/// The shortest of the lengths (15 where there is none).
pub open spec fn min_length(lens: Seq<u8>) -> nat
    decreases lens.len(),
{
    if lens.len() == 0 {
        MAX_BITS as nat
    } else {
        let rest = min_length(lens.drop_last());
        if (lens.last() as nat) < rest {
            lens.last() as nat
        } else {
            rest
        }
    }
}

/// The longest of the lengths (0 where there is none).
pub open spec fn max_length(lens: Seq<u8>) -> nat
    decreases lens.len(),
{
    if lens.len() == 0 {
        0
    } else {
        let rest = max_length(lens.drop_last());
        if (lens.last() as nat) > rest {
            lens.last() as nat
        } else {
            rest
        }
    }
}

/// A code of `len_a` bits is a prefix of a code of `len_b` bits when the first `len_a`
/// bits of the second spell the first.
pub open spec fn is_prefix(code_a: nat, len_a: nat, code_b: nat, len_b: nat) -> bool {
    len_a <= len_b && code_b / pow2((len_b - len_a) as nat) == code_a
}

/// What a table is: for each code value the length and the symbol of the code with that
/// value, if there is one, and the shortest and longest length in use.
pub struct TableModel<S> {
    pub entries: Seq<Option<(u8, S)>>,
    pub min_bits: nat,
    pub max_bits: nat,
}

/// The entry at code value `code` in the table of `pairs`.
pub open spec fn canonical_entry<S>(pairs: Seq<(S, u8)>, code: int) -> Option<(u8, S)> {
    let lens = code_lengths(pairs);
    if exists|i: int| 0 <= i < pairs.len() && canonical_code(lens, i) == code {
        let i = choose|i: int| 0 <= i < pairs.len() && canonical_code(lens, i) == code;
        Some((pairs[i].1, pairs[i].0))
    } else {
        None
    }
}

/// The number of code values that a table for `lens` has an entry for: all up to the last
/// code of the longest length, as far as that many bits can spell them. (Where the
/// lengths ask for more codes than there are, the codes beyond never match anything.)
pub open spec fn table_size(lens: Seq<u8>) -> nat {
    let limit = code_limit(lens, max_length(lens));
    if limit <= pow2(max_length(lens)) {
        limit
    } else {
        pow2(max_length(lens))
    }
}

/// The table of the canonical code that `pairs` defines.
pub open spec fn canonical_table<S>(pairs: Seq<(S, u8)>) -> TableModel<S> {
    let lens = code_lengths(pairs);
    TableModel {
        entries: Seq::new(table_size(lens), |code: int| canonical_entry(pairs, code)),
        min_bits: min_length(lens),
        max_bits: max_length(lens),
    }
}

impl<S> TableModel<S> {
    /// The symbol whose code has `len` bits and the value `code`.
    pub open spec fn lookup(self, len: nat, code: nat) -> Option<S> {
        if code < self.entries.len() {
            match self.entries[code as int] {
                Some((l, symbol)) => if l as nat == len {
                    Some(symbol)
                } else {
                    None
                },
                None => None,
            }
        } else {
            None
        }
    }

    /// Every entry has a length between the shortest and the longest, and those are in
    /// `1..=15`.
    pub open spec fn well_formed(self) -> bool {
        &&& 1 <= self.min_bits
        &&& self.max_bits <= MAX_BITS
        &&& forall|code: int|
            0 <= code < self.entries.len() ==> match #[trigger] self.entries[code] {
                Some((l, _)) => self.min_bits <= l <= self.max_bits,
                None => true,
            }
    }

    /// Decoding at `pos` when no code of fewer than `width` bits matches: the symbol and
    /// the position after its code, for the shortest code that the bits from `pos` on
    /// spell. Without such a code the data is bad, unless the bits end first.
    pub open spec fn decode_from(self, data: Seq<u8>, pos: nat, width: nat) -> Result<
        (S, nat),
        Error,
    >
        decreases self.max_bits + 1 - width,
    {
        if width > self.max_bits {
            Err(Error::BadHuffmanData)
        } else if pos + width > bit_count(data) {
            Err(Error::UnexpectedEofInBits)
        } else {
            match self.lookup(width, code_value(data, pos, width)) {
                Some(symbol) => Ok((symbol, pos + width)),
                None => self.decode_from(data, pos, width + 1),
            }
        }
    }

    /// Decoding one symbol at bit position `pos` of `data`.
    pub open spec fn decode_at(self, data: Seq<u8>, pos: nat) -> Result<(S, nat), Error> {
        self.decode_from(data, pos, 1)
    }

    /// The length of the code with the value `code`, or 0 where there is none.
    pub open spec fn length_at(self, code: int) -> nat {
        match self.entries[code] {
            Some((l, _)) => l as nat,
            None => 0,
        }
    }

    /// No code in the table is a prefix of another.
    pub open spec fn prefix_free(self) -> bool {
        forall|a: int, b: int|
            0 <= a < self.entries.len() && 0 <= b < self.entries.len() && a != b
                && self.entries[a] is Some && self.entries[b] is Some ==> !is_prefix(
                a as nat,
                #[trigger] self.length_at(a),
                b as nat,
                #[trigger] self.length_at(b),
            )
    }

    /// A decoded symbol ends after the position it started at, and within the data.
    /// Decoding fails only where no code matches or the data ends.
    pub proof fn lemma_decode_advances(self, data: Seq<u8>, pos: nat, width: nat)
        requires
            width >= 1,
        ensures
            match self.decode_from(data, pos, width) {
                Ok((_, next)) => pos < next <= bit_count(data) && next <= pos + self.max_bits,
                Err(e) => e == Error::BadHuffmanData || e == Error::UnexpectedEofInBits,
            },
        decreases self.max_bits + 1 - width,
    {
        if width > self.max_bits {
        } else if pos + width > bit_count(data) {
        } else {
            match self.lookup(width, code_value(data, pos, width)) {
                Some(symbol) => {},
                None => {
                    self.lemma_decode_advances(data, pos, width + 1);
                },
            }
        }
    }

    /// What is decoded from the data that has arrived stays when more arrives: the symbol
    /// and where it ends, and the verdict that no code matches. Only the verdict that the
    /// data ends too early may change.
    pub proof fn lemma_decode_stable(self, data: Seq<u8>, more: Seq<u8>, pos: nat, width: nat)
        ensures
            match self.decode_from(data, pos, width) {
                Ok(found) => self.decode_from(data + more, pos, width) == Ok::<(S, nat), Error>(
                    found,
                ),
                Err(e) => e.is_end_of_data() || self.decode_from(data + more, pos, width)
                    == Err::<(S, nat), Error>(e),
            },
        decreases self.max_bits + 1 - width,
    {
        if width > self.max_bits {
        } else if pos + width > bit_count(data) {
        } else {
            lemma_code_value_prefix(data, more, pos, width);
            match self.lookup(width, code_value(data, pos, width)) {
                Some(symbol) => {},
                None => {
                    self.lemma_decode_stable(data, more, pos, width + 1);
                },
            }
        }
    }
}

/// Counting further never counts less, and no more than one per step.
pub proof fn lemma_count_monotonic(lens: Seq<u8>, len: nat, a: nat, b: nat)
    requires
        a <= b,
    ensures
        count_of(lens, len, a) <= count_of(lens, len, b) <= count_of(lens, len, a) + (b - a),
    decreases b,
{
    if a < b {
        lemma_count_monotonic(lens, len, a, (b - 1) as nat);
    }
}

/// An index with the length `len` is counted by every later count.
pub proof fn lemma_count_includes(lens: Seq<u8>, len: nat, i: int, upto: nat)
    requires
        0 <= i < upto,
        lens[i] as nat == len,
    ensures
        count_of(lens, len, i as nat) < count_of(lens, len, upto),
{
    assert(count_of(lens, len, (i + 1) as nat) == count_of(lens, len, i as nat) + 1);
    lemma_count_monotonic(lens, len, (i + 1) as nat, upto);
}

/// The codes of a longer length start at or after the limit of a shorter one, shifted to
/// the longer length.
pub proof fn lemma_first_code_grows(lens: Seq<u8>, short: nat, long: nat)
    requires
        1 <= short < long,
    ensures
        first_code(lens, long) >= pow2((long - short) as nat) * code_limit(lens, short),
        code_limit(lens, long) >= code_limit(lens, short),
    decreases long,
{
    lemma2_to64();
    if long == short + 1 {
        assert(first_code(lens, long) == 2 * code_limit(lens, short));
    } else {
        lemma_first_code_grows(lens, short, (long - 1) as nat);
        let k = (long - 1 - short) as nat;
        lemma_pow2_unfold((long - short) as nat);
        let e = code_limit(lens, short);
        let f = first_code(lens, (long - 1) as nat);
        assert(2 * (pow2(k) * e) == (2 * pow2(k)) * e) by (nonlinear_arith);
        assert(first_code(lens, long) == 2 * code_limit(lens, (long - 1) as nat));
    }
    lemma_pow2_pos((long - short) as nat);
    assert(pow2((long - short) as nat) * code_limit(lens, short) >= code_limit(lens, short))
        by (nonlinear_arith)
        requires
            pow2((long - short) as nat) >= 1,
    ;
}

/// Every code is below the limit of its length.
pub proof fn lemma_code_below_limit(lens: Seq<u8>, i: int)
    requires
        0 <= i < lens.len(),
        lens[i] >= 1,
    ensures
        first_code(lens, lens[i] as nat) <= canonical_code(lens, i) < code_limit(
            lens,
            lens[i] as nat,
        ),
{
    lemma_count_includes(lens, lens[i] as nat, i, lens.len());
}

/// Two symbols never get the same code value.
pub proof fn lemma_codes_distinct(lens: Seq<u8>, i: int, j: int)
    requires
        valid_lengths(lens),
        0 <= i < lens.len(),
        0 <= j < lens.len(),
        i != j,
    ensures
        canonical_code(lens, i) != canonical_code(lens, j),
{
    let li = lens[i] as nat;
    let lj = lens[j] as nat;
    lemma_code_below_limit(lens, i);
    lemma_code_below_limit(lens, j);
    if li == lj {
        if i < j {
            lemma_count_includes(lens, li, i, j as nat);
        } else {
            lemma_count_includes(lens, li, j, i as nat);
        }
    } else if li < lj {
        lemma_first_code_grows(lens, li, lj);
        lemma_pow2_pos((lj - li) as nat);
        assert(pow2((lj - li) as nat) * code_limit(lens, li) >= code_limit(lens, li))
            by (nonlinear_arith)
            requires
                pow2((lj - li) as nat) >= 1,
        ;
    } else {
        lemma_first_code_grows(lens, lj, li);
        lemma_pow2_pos((li - lj) as nat);
        assert(pow2((li - lj) as nat) * code_limit(lens, lj) >= code_limit(lens, lj))
            by (nonlinear_arith)
            requires
                pow2((li - lj) as nat) >= 1,
        ;
    }
}

/// The prefix property of canonical codes: among the codes that a sequence of lengths in
/// `1..=15` defines, none is a prefix of another.
pub proof fn lemma_prefix_free(lens: Seq<u8>, i: int, j: int)
    requires
        valid_lengths(lens),
        0 <= i < lens.len(),
        0 <= j < lens.len(),
        i != j,
    ensures
        !is_prefix(
            canonical_code(lens, i),
            lens[i] as nat,
            canonical_code(lens, j),
            lens[j] as nat,
        ),
{
    let li = lens[i] as nat;
    let lj = lens[j] as nat;
    if li == lj {
        lemma_codes_distinct(lens, i, j);
        lemma2_to64();
        assert(pow2((lj - li) as nat) == 1);
        assert(canonical_code(lens, j) / 1 == canonical_code(lens, j));
    } else if li < lj {
        lemma_code_below_limit(lens, i);
        lemma_code_below_limit(lens, j);
        lemma_first_code_grows(lens, li, lj);
        let p = pow2((lj - li) as nat);
        lemma_pow2_pos((lj - li) as nat);
        let cj = canonical_code(lens, j);
        let e = code_limit(lens, li);
        assert(cj / p >= e) by (nonlinear_arith)
            requires
                cj >= p * e,
                p >= 1,
        ;
    }
}

/// The shortest and the longest length bound every length, and are in `1..=15` where the
/// lengths are.
pub proof fn lemma_length_range(lens: Seq<u8>)
    ensures
        forall|i: int|
            0 <= i < lens.len() ==> min_length(lens) <= #[trigger] lens[i] <= max_length(lens),
        lens.len() > 0 ==> exists|i: int| 0 <= i < lens.len() && lens[i] == max_length(lens),
        valid_lengths(lens) && lens.len() > 0 ==> 1 <= min_length(lens) <= max_length(lens)
            <= MAX_BITS,
        min_length(lens) <= MAX_BITS,
    decreases lens.len(),
{
    if lens.len() > 0 {
        let rest = lens.drop_last();
        lemma_length_range(rest);
        assert forall|i: int| 0 <= i < lens.len() implies min_length(lens) <= #[trigger] lens[i]
            <= max_length(lens) by {
            if i < rest.len() {
                assert(rest[i] == lens[i]);
            }
        }
        if lens.last() as nat > max_length(rest) {
            assert(lens[lens.len() - 1] == max_length(lens));
        } else {
            if rest.len() > 0 {
                let i = choose|i: int| 0 <= i < rest.len() && rest[i] == max_length(rest);
                assert(lens[i] == max_length(lens));
            } else {
                assert(lens[lens.len() - 1] == max_length(lens));
            }
        }
        if valid_lengths(lens) {
            assert(1 <= lens[lens.len() - 1] <= MAX_BITS);
            assert forall|i: int| 0 <= i < rest.len() implies 1 <= #[trigger] rest[i]
                <= MAX_BITS by {
                assert(rest[i] == lens[i]);
            }
        }
    }
}

/// The limit of a length is at most the number of symbols times `2^len - 1`.
pub proof fn lemma_code_limit_bound(lens: Seq<u8>, len: nat)
    ensures
        code_limit(lens, len) <= lens.len() * (pow2(len) - 1),
        first_code(lens, len + 1) <= lens.len() * (pow2(len + 1) - 2),
    decreases len,
{
    lemma2_to64();
    let n = lens.len();
    if len == 0 {
        assert(n * (1 - 1) == 0) by (nonlinear_arith);
        assert(n * (2 - 2) == 0) by (nonlinear_arith);
    } else {
        lemma_code_limit_bound(lens, (len - 1) as nat);
        lemma_count_monotonic(lens, len, 0, n);
        lemma_pow2_unfold(len);
        lemma_pow2_unfold(len + 1);
        let p = pow2(len);
        let c = count_of(lens, len, n);
        let f = first_code(lens, len);
        assert(f + c <= n * (p - 1)) by (nonlinear_arith)
            requires
                f <= n * (p - 2),
                c <= n,
        ;
        assert(2 * (f + c) <= n * (2 * p - 2)) by (nonlinear_arith)
            requires
                f + c <= n * (p - 1),
        ;
    }
}

/// The table of a canonical code is well formed and prefix free.
pub proof fn lemma_canonical_table<S>(pairs: Seq<(S, u8)>)
    requires
        valid_lengths(code_lengths(pairs)),
        pairs.len() > 0,
    ensures
        canonical_table(pairs).well_formed(),
        canonical_table(pairs).prefix_free(),
{
    let lens = code_lengths(pairs);
    let table = canonical_table(pairs);
    lemma_length_range(lens);
    assert forall|code: int| 0 <= code < table.entries.len() implies match
        #[trigger] table.entries[code] {
        Some((l, _)) => table.min_bits <= l <= table.max_bits,
        None => true,
    } by {
        if table.entries[code] is Some {
            let i = choose|i: int| 0 <= i < pairs.len() && canonical_code(lens, i) == code;
            assert(lens[i] == pairs[i].1);
        }
    }
    assert forall|a: int, b: int|
        0 <= a < table.entries.len() && 0 <= b < table.entries.len() && a != b
            && table.entries[a] is Some && table.entries[b] is Some implies !is_prefix(
        a as nat,
        #[trigger] table.length_at(a),
        b as nat,
        #[trigger] table.length_at(b),
    ) by {
        let i = choose|i: int| 0 <= i < pairs.len() && canonical_code(lens, i) == a;
        let j = choose|j: int| 0 <= j < pairs.len() && canonical_code(lens, j) == b;
        assert(lens[i] == pairs[i].1);
        assert(lens[j] == pairs[j].1);
        lemma_prefix_free(lens, i, j);
    }
}

/// A prefix-code table. Maps each code to the symbol that it stands for.
///
/// The `S` corresponds to the types of symbols (ie. the result of decoding).
#[derive(Debug)]
pub struct HuffmanTable<S> {
    // The index of each element is the value of a code. Each element holds the number of
    // bits of the code with that value, and its symbol.
    elements: Vec<Option<(u8, S)>>,
    // Minimum number of bits to read before trying to match any code.
    min_bits: u8,
    // Number of bits after which no code can match any more.
    max_bits: u8,
}

impl<S> View for HuffmanTable<S> {
    type V = TableModel<S>;

    closed spec fn view(&self) -> TableModel<S> {
        TableModel {
            entries: self.elements@,
            min_bits: self.min_bits as nat,
            max_bits: self.max_bits as nat,
        }
    }
}

impl<S: Copy> HuffmanTable<S> {
    /// The table's model is well formed.
    pub open spec fn wf(&self) -> bool {
        self@.well_formed()
    }

    /// Generates a table of symbols from lengths.
    ///
    /// You must pass each possible symbol in order, and the corresponding code length:
    /// at least one pair, and no more than 65536, so that every code fits in 32 bits.
    /// The result is the table of the canonical code with these lengths. A length of 0 or
    /// of more than 15 is rejected.
    #[verifier::rlimit(50)]
    pub fn from_lengths(lengths: &[(S, u8)]) -> (result: Result<HuffmanTable<S>, Error>)
        requires
            0 < lengths@.len() <= 0x1_0000,
        ensures
            match result {
                Ok(table) => {
                    &&& valid_lengths(code_lengths(lengths@))
                    &&& table@ == canonical_table(lengths@)
                    &&& table.wf()
                    &&& table@.prefix_free()
                },
                Err(e) => e == Error::InvalidCodeLength && !valid_lengths(code_lengths(lengths@)),
            },
    {
        let ghost lens = code_lengths(lengths@);
        let n = lengths.len();

        // array where indices are lengths and values are number of elements of that length
        let mut counts: [u32; 16] = [0;16];
        let mut min_bits: u8 = MAX_BITS;
        let mut max_bits: u8 = 0;
        let mut i: usize = 0;
        while i < n
            invariant
                i <= n,
                n == lengths@.len(),
                n <= 0x1_0000,
                lens == code_lengths(lengths@),
                forall|j: int| 0 <= j < i ==> 1 <= #[trigger] lens[j] <= MAX_BITS,
                forall|l: int|
                    0 <= l < 16 ==> #[trigger] counts[l] == count_of(lens, l as nat, i as nat),
                min_bits == min_length(lens.take(i as int)),
                max_bits == max_length(lens.take(i as int)),
            decreases n - i,
        {
            let len = lengths[i].1;
            if len == 0 || len > MAX_BITS {
                proof {
                    assert(lens[i as int] == len);
                }
                return Err(Error::InvalidCodeLength);
            }
            proof {
                assert(lens[i as int] == len);
                lemma_count_monotonic(lens, len as nat, 0, i as nat);
                assert(lens.take(i + 1).drop_last() =~= lens.take(i as int));
            }
            counts[len as usize] = counts[len as usize] + 1;
            if len < min_bits {
                min_bits = len;
            }
            if len > max_bits {
                max_bits = len;
            }
            i += 1;
        }
        proof {
            assert(lens.take(n as int) =~= lens);
            lemma_length_range(lens);
        }

        // array where indices are lengths and values are the starting values for this length
        let mut next_code: [u32; 16] = [0;16];
        let mut code: u32 = 0;
        let mut bit: usize = 2;
        while bit < 16
            invariant
                2 <= bit <= 16,
                n == lens.len(),
                n <= 0x1_0000,
                code == first_code(lens, (bit - 1) as nat),
                forall|l: int|
                    0 <= l < 16 ==> #[trigger] counts[l] == count_of(lens, l as nat, n as nat),
                forall|l: int|
                    1 <= l < bit ==> #[trigger] next_code[l] == first_code(lens, l as nat),
            decreases 16 - bit,
        {
            proof {
                lemma_code_limit_bound(lens, (bit - 1) as nat);
                lemma2_to64();
                let p = pow2(bit as nat);
                assert(n * (p - 2) <= 0x1_0000 * 32766) by (nonlinear_arith)
                    requires
                        n <= 0x1_0000,
                        2 <= p <= 32768,
                ;
            }
            code = (code + counts[bit - 1]) * 2;
            next_code[bit] = code;
            bit += 1;
        }

        // the table has a slot for each code value up to the last code of the longest
        // length, but for none that so many bits cannot spell
        proof {
            lemma_code_limit_bound(lens, max_bits as nat);
            lemma2_to64();
            let p = pow2(max_bits as nat);
            assert(n * (p - 1) <= 0x1_0000 * 32767) by (nonlinear_arith)
                requires
                    n <= 0x1_0000,
                    1 <= p <= 32768,
            ;
        }
        let limit = next_code[max_bits as usize] + counts[max_bits as usize];
        let spelled = 1u32 << (max_bits as u32);
        proof {
            lemma_u32_shl_is_mul(1u32, max_bits as u32);
        }
        let size = if limit <= spelled {
            limit as usize
        } else {
            spelled as usize
        };
        let mut elements: Vec<Option<(u8, S)>> = Vec::new();
        while elements.len() < size
            invariant
                elements@.len() <= size,
                forall|c: int| 0 <= c < elements@.len() ==> elements@[c] is None,
            decreases size - elements@.len(),
        {
            elements.push(None);
        }

        // building the real array of elements
        let mut i: usize = 0;
        while i < n
            invariant
                i <= n,
                n == lengths@.len(),
                n <= 0x1_0000,
                lens == code_lengths(lengths@),
                valid_lengths(lens),
                1 <= max_bits <= MAX_BITS,
                max_bits == max_length(lens),
                size == table_size(lens),
                size <= code_limit(lens, max_bits as nat) <= 0x1_0000 * 32767,
                elements@.len() == size,
                forall|l: int|
                    1 <= l < 16 ==> #[trigger] next_code[l] == first_code(lens, l as nat)
                        + count_of(lens, l as nat, i as nat),
                forall|j: int|
                    0 <= j < i && (#[trigger] canonical_code(lens, j)) < size
                        ==> elements@[canonical_code(lens, j) as int] == Some(
                        (lengths@[j].1, lengths@[j].0),
                    ),
                forall|c: int|
                    0 <= c < size && #[trigger] elements@[c] is Some ==> exists|j: int|
                        0 <= j < i && canonical_code(lens, j) == c,
            decreases n - i,
        {
            let pair = lengths[i];
            let symbol = pair.0;
            let len = pair.1;
            proof {
                assert(lens[i as int] == len);
            }
            let code = next_code[len as usize];
            proof {
                assert(code == canonical_code(lens, i as int));
                lemma_code_below_limit(lens, i as int);
                lemma_length_range(lens);
                if (len as nat) < max_bits as nat {
                    lemma_first_code_grows(lens, len as nat, max_bits as nat);
                }
                assert forall|j: int| 0 <= j < i implies canonical_code(lens, j) != code by {
                    lemma_codes_distinct(lens, j, i as int);
                }
            }
            next_code[len as usize] = code + 1;
            let ghost before = elements@;
            if (code as usize) < size {
                elements[code as usize] = Some((len, symbol));
            }
            proof {
                assert forall|c: int|
                    0 <= c < size && #[trigger] elements@[c] is Some implies exists|j: int|
                    0 <= j < i + 1 && canonical_code(lens, j) == c by {
                    if c == code {
                        assert(canonical_code(lens, i as int) == c);
                    } else {
                        assert(before[c] is Some);
                        let j = choose|j: int| 0 <= j < i && canonical_code(lens, j) == c;
                        assert(0 <= j < i + 1 && canonical_code(lens, j) == c);
                    }
                }
                assert forall|j: int|
                    0 <= j < i + 1 && (#[trigger] canonical_code(lens, j))
                        < size implies elements@[canonical_code(lens, j) as int] == Some(
                    (lengths@[j].1, lengths@[j].0),
                ) by {
                    if j < i {
                        assert(canonical_code(lens, j) != code);
                        assert(before[canonical_code(lens, j) as int] == Some(
                            (lengths@[j].1, lengths@[j].0),
                        ));
                    }
                }
            }
            i += 1;
        }

        let table = HuffmanTable { elements: elements, min_bits: min_bits, max_bits: max_bits };
        proof {
            let model = canonical_table(lengths@);
            assert forall|c: int| 0 <= c < size implies elements@[c] == canonical_entry(
                lengths@,
                c,
            ) by {
                if exists|j: int| 0 <= j < n && canonical_code(lens, j) == c {
                    let j = choose|j: int| 0 <= j < lengths@.len() && canonical_code(lens, j) == c;
                    assert(elements@[canonical_code(lens, j) as int] == Some(
                        (lengths@[j].1, lengths@[j].0),
                    ));
                } else {
                    if elements@[c] is Some {
                        let j = choose|j: int| 0 <= j < n && canonical_code(lens, j) == c;
                        assert(false);
                    }
                }
            }
            assert(table@.entries =~= model.entries);
            lemma_canonical_table(lengths@);
        }
        Ok(table)
    }

    /// The length and the symbol of the code with the value `code`, if the table holds one.
    pub fn entry(&self, code: usize) -> (found: Option<(u8, S)>)
        ensures
            found == if code < self@.entries.len() {
                self@.entries[code as int]
            } else {
                None
            },
    {
        if code < self.elements.len() {
            self.elements[code]
        } else {
            None
        }
    }

    /// Reads from a bunch of bits and attempts to decode a next symbol by using the table.
    ///
    /// The symbol is that of the shortest code that the next bits spell; the reader then
    /// stands behind that code. If no code matches, the error is `BadHuffmanData`; if the
    /// bits end before that is known, it is `UnexpectedEofInBits`.
    #[verifier::rlimit(50)]
    pub fn decode(&self, input: &mut BitRead) -> (result: Result<S, Error>)
        requires
            self.wf(),
            old(input).wf(),
        ensures
            final(input).wf(),
            final(input).same_stream(*old(input)),
            match result {
                Ok(symbol) => self@.decode_at(old(input).bytes(), old(input).bit_position())
                    == Ok::<(S, nat), Error>((symbol, final(input).bit_position())),
                Err(e) => self@.decode_at(old(input).bytes(), old(input).bit_position())
                    == Err::<(S, nat), Error>(e),
            },
    {
        let ghost data = input.bytes();
        let ghost start = input.bit_position();
        // we store the list of bits that have been read in a buffer
        let mut buffer: u16 = 0;
        let mut num_bits_in_buffer: u8 = 0;
        loop
            invariant
                self.wf(),
                input.wf(),
                data == old(input).bytes(),
                start == old(input).bit_position(),
                input.same_stream(*old(input)),
                input.bit_position() == start + num_bits_in_buffer,
                num_bits_in_buffer <= self.max_bits <= MAX_BITS,
                buffer == code_value(data, start, num_bits_in_buffer as nat),
                self@.decode_at(data, start) == self@.decode_from(
                    data,
                    start,
                    (num_bits_in_buffer + 1) as nat,
                ),
            decreases self.max_bits - num_bits_in_buffer,
        {
            // breaking the loop if we have read too much
            if num_bits_in_buffer >= self.max_bits {
                return Err(Error::BadHuffmanData);
            }
            let bit = match input.read(1) {
                Ok(bit) => bit,
                Err(e) => {
                    return Err(e);
                },
            };
            proof {
                lemma_code_value_bound(data, start, num_bits_in_buffer as nat);
                lemma_code_value_step(data, start, num_bits_in_buffer as nat);
                lemma_code_value_bound(data, start, (num_bits_in_buffer + 1) as nat);
                lemma2_to64();
                lemma_bits_value_bound(data, (start + num_bits_in_buffer) as nat, 1);
                lemma_pow2_strictly_increases(num_bits_in_buffer as nat, 15);
                let b = bit as u16;
                assert((buffer << 1) | b == 2 * buffer + b) by (bit_vector)
                    requires
                        buffer < 0x8000,
                        b <= 1,
                ;
            }
            buffer = (buffer << 1) | (bit as u16);
            num_bits_in_buffer = num_bits_in_buffer + 1;

            if num_bits_in_buffer >= self.min_bits && (buffer as usize) < self.elements.len() {
                match self.elements[buffer as usize] {
                    None => (),
                    Some(elem) => {
                        if elem.0 == num_bits_in_buffer {
                            return Ok(elem.1);
                        }
                    },
                }
            }
            proof {
                assert(self@.lookup(num_bits_in_buffer as nat, buffer as nat) is None) by {
                    if (buffer as int) < self@.entries.len() {
                        let e = self@.entries[buffer as int];
                    }
                }
            }
        }
    }
}

/// The table of a canonical code holds every code that its length can spell, with its
/// symbol.
pub proof fn lemma_canonical_entry<S>(pairs: Seq<(S, u8)>, i: int)
    requires
        valid_lengths(code_lengths(pairs)),
        0 <= i < pairs.len(),
        canonical_code(code_lengths(pairs), i) < pow2(pairs[i].1 as nat),
    ensures
        canonical_code(code_lengths(pairs), i) < canonical_table(pairs).entries.len(),
        canonical_table(pairs).entries[canonical_code(code_lengths(pairs), i) as int] == Some(
            (pairs[i].1, pairs[i].0),
        ),
{
    let lens = code_lengths(pairs);
    let code = canonical_code(lens, i);
    let len = lens[i] as nat;
    assert(lens[i] == pairs[i].1);
    lemma_length_range(lens);
    lemma_code_below_limit(lens, i);
    if len < max_length(lens) {
        lemma_first_code_grows(lens, len, max_length(lens));
        lemma_pow2_strictly_increases(len, max_length(lens));
    }
    let j = choose|j: int| 0 <= j < pairs.len() && canonical_code(lens, j) == code;
    if j != i {
        lemma_codes_distinct(lens, i, j);
    }
}

/// Decoding undoes coding: where the bits spell the code of a symbol, that symbol is
/// decoded, and the bits of its code are used up. This is so because no code is a prefix
/// of another.
pub proof fn lemma_decode_inverts<S>(pairs: Seq<(S, u8)>, i: int, data: Seq<u8>, pos: nat)
    requires
        valid_lengths(code_lengths(pairs)),
        0 <= i < pairs.len(),
        pos + pairs[i].1 <= bit_count(data),
        code_value(data, pos, pairs[i].1 as nat) == canonical_code(code_lengths(pairs), i),
    ensures
        canonical_table(pairs).decode_at(data, pos) == Ok::<(S, nat), Error>(
            (pairs[i].0, pos + pairs[i].1 as nat),
        ),
{
    lemma_decode_reaches(pairs, i, data, pos, 1);
}

/// Where the bits spell the code of a symbol and no shorter code than `width` bits has
/// matched, that symbol is decoded.
proof fn lemma_decode_reaches<S>(pairs: Seq<(S, u8)>, i: int, data: Seq<u8>, pos: nat, width: nat)
    requires
        valid_lengths(code_lengths(pairs)),
        0 <= i < pairs.len(),
        pos + pairs[i].1 <= bit_count(data),
        code_value(data, pos, pairs[i].1 as nat) == canonical_code(code_lengths(pairs), i),
        1 <= width <= pairs[i].1,
    ensures
        canonical_table(pairs).decode_from(data, pos, width) == Ok::<(S, nat), Error>(
            (pairs[i].0, pos + pairs[i].1 as nat),
        ),
    decreases pairs[i].1 - width,
{
    let lens = code_lengths(pairs);
    let table = canonical_table(pairs);
    let len = pairs[i].1 as nat;
    let code = canonical_code(lens, i);
    assert(lens[i] == pairs[i].1);
    lemma_length_range(lens);
    lemma_code_value_bound(data, pos, len);
    lemma_canonical_entry(pairs, i);
    if width < len {
        let seen = code_value(data, pos, width);
        lemma_code_value_front(data, pos, width, len);
        if table.lookup(width, seen) is Some {
            let j = choose|j: int| 0 <= j < pairs.len() && canonical_code(lens, j) == seen;
            assert(lens[j] == pairs[j].1);
            lemma_prefix_free(lens, j, i);
        }
        lemma_decode_reaches(pairs, i, data, pos, width + 1);
    }
}

} // verus!
