//! The schema-driven reader: decodes the whole database out of the bit
//! stream in a fixed order, threading previously decoded cardinalities
//! into the range bounds of later tables.
//!
//! Every stage is specified against a spec-level decoder over the
//! remaining bits, so the decoded database is a function of the bytes
//! alone.

use vstd::prelude::*;
use crate::bits::InputBitStream;
use crate::bits::bytes_bits;
use crate::file_utils::ReadError;
use crate::file_utils::spec_match_bytes;
use crate::file_utils::assert_next_is_same_text;
use crate::huffman::HuffmanTable;
use crate::huffman::NaturalNumberHuffmanTable;
use crate::huffman::NaturalUsizeHuffmanTable;
use crate::huffman::IntegerNumberHuffmanTable;
use crate::huffman::RangedIntegerHuffmanTable;
use crate::huffman::RangedNaturalUsizeHuffmanTable;
use crate::huffman::DefinedHuffmanTable;
use crate::huffman::DefinedShape;
use crate::huffman::spec_ranged;
use crate::huffman::spec_ranged_usize;
use crate::huffman::table_matches_shape;
use crate::codec::Decoded;
use crate::codec::CharElementReader;
use crate::codec::U32ElementReader;
use crate::codec::I32ElementReader;
use crate::codec::spec_read_symbol;
use crate::codec::spec_read_table;
use crate::codec::lemma_read_symbol_congruent;
use crate::codec::lemma_read_symbol_emits;
use crate::huffman::lemma_ranged_usize_fields;

verus! {

/// A language code: two lowercase Latin letters stored as
/// `first · 26 + second`, so always below 676.
#[derive(Clone, Copy, Debug, PartialEq, Eq, Structural)]
pub struct LanguageCode {
    pub code: u16,
}

impl LanguageCode {
    pub fn new(code: u32) -> (r: Self)
        requires
            code < 676,
        ensures
            r.code == code,
    {
        LanguageCode { code: code as u16 }
    }
}

#[derive(Clone, Copy, Debug, PartialEq, Eq, Structural)]
pub struct Language {
    pub code: LanguageCode,
    pub number_of_alphabets: usize,
}

#[derive(Clone, Copy, Debug, PartialEq, Eq, Structural, Hash)]
pub struct SymbolArrayIndex {
    pub index: usize,
}

#[derive(Clone, Copy, Debug, PartialEq, Eq, Structural, Hash)]
pub struct Alphabet {
    pub index: usize,
}

#[derive(Clone, Copy, Debug, PartialEq, Eq, Structural, Hash)]
pub struct CorrelationIndex {
    pub index: usize,
}

#[derive(Clone, Copy, Debug, PartialEq, Eq, Structural, Hash)]
pub struct CorrelationArrayIndex {
    pub index: usize,
}

pub struct Conversion {
    pub source: Alphabet,
    pub target: Alphabet,
    pub pairs: Vec<(SymbolArrayIndex, SymbolArrayIndex)>,
}

#[derive(Clone, Copy, Debug, PartialEq, Eq, Structural)]
pub struct Acceptation {
    pub concept: usize,
    pub correlation_array_index: CorrelationArrayIndex,
}

/// A concept defined as a base concept narrowed by a set of complements;
/// the complements are kept strictly increasing, as the stream stores
/// them.
pub struct Definition {
    pub base_concept: usize,
    pub complements: Vec<usize>,
}

/// The decoded database. Correlations are kept as key-sorted pair lists;
/// definitions as a list of (concept, definition) entries in decode
/// order.
pub struct SdbReadResult {
    pub symbol_arrays: Vec<Vec<char>>,
    pub languages: Vec<Language>,
    pub conversions: Vec<Conversion>,
    pub max_concept: usize,
    pub correlations: Vec<Vec<(Alphabet, SymbolArrayIndex)>>,
    pub correlation_arrays: Vec<Vec<CorrelationIndex>>,
    pub acceptations: Vec<Acceptation>,
    pub definitions: Vec<(usize, Definition)>,
}

/// Mathematical image of a conversion.
pub struct ConversionModel {
    pub source: Alphabet,
    pub target: Alphabet,
    pub pairs: Seq<(SymbolArrayIndex, SymbolArrayIndex)>,
}

/// Mathematical image of a definition.
pub struct DefinitionModel {
    pub base_concept: usize,
    pub complements: Seq<usize>,
}

/// Mathematical image of the whole decoded database.
pub struct SdbModel {
    pub symbol_arrays: Seq<Seq<char>>,
    pub languages: Seq<Language>,
    pub conversions: Seq<ConversionModel>,
    pub max_concept: usize,
    pub correlations: Seq<Seq<(Alphabet, SymbolArrayIndex)>>,
    pub correlation_arrays: Seq<Seq<CorrelationIndex>>,
    pub acceptations: Seq<Acceptation>,
    pub definitions: Seq<(usize, DefinitionModel)>,
}

pub open spec fn conversion_view(c: Conversion) -> ConversionModel {
    ConversionModel { source: c.source, target: c.target, pairs: c.pairs@ }
}

pub open spec fn definition_view(d: Definition) -> DefinitionModel {
    DefinitionModel { base_concept: d.base_concept, complements: d.complements@ }
}

pub open spec fn result_view(r: &SdbReadResult) -> SdbModel {
    SdbModel {
        symbol_arrays: r.symbol_arrays@.map_values(|v: Vec<char>| v@),
        languages: r.languages@,
        conversions: r.conversions@.map_values(|c: Conversion| conversion_view(c)),
        max_concept: r.max_concept,
        correlations: r.correlations@.map_values(|v: Vec<(Alphabet, SymbolArrayIndex)>| v@),
        correlation_arrays: r.correlation_arrays@.map_values(|v: Vec<CorrelationIndex>| v@),
        acceptations: r.acceptations@,
        definitions: r.definitions@.map_values(|p: (usize, Definition)| (p.0, definition_view(p.1))),
    }
}

/// The four auxiliary natural/integer tables the reader holds, as spec
/// values.
pub open spec fn nat_table(alignment: u32) -> NaturalNumberHuffmanTable {
    NaturalNumberHuffmanTable { alignment }
}

pub open spec fn nat_usize_table(alignment: u32) -> NaturalUsizeHuffmanTable {
    NaturalUsizeHuffmanTable { alignment }
}

pub open spec fn int_table(alignment: u32) -> IntegerNumberHuffmanTable {
    IntegerNumberHuffmanTable { alignment }
}

/// The element readers of the four stored tables of the format.
pub open spec fn char_elements() -> CharElementReader {
    CharElementReader { base: nat_table(8), diff: nat_table(4) }
}

pub open spec fn length_elements() -> U32ElementReader {
    U32ElementReader { base: nat_table(8), diff: nat_table(3) }
}

pub open spec fn signed_length_elements() -> I32ElementReader {
    I32ElementReader { base: int_table(8), diff: nat_table(8) }
}

pub open spec fn concept_map_elements() -> U32ElementReader {
    U32ElementReader { base: nat_table(8), diff: nat_table(8) }
}

pub struct SdbReader {
    stream: InputBitStream,
    natural3_table: NaturalNumberHuffmanTable,
    natural4_table: NaturalNumberHuffmanTable,
    natural8_table: NaturalNumberHuffmanTable,
    integer8_table: IntegerNumberHuffmanTable,
    natural2_usize_table: NaturalUsizeHuffmanTable,
    natural8_usize_table: NaturalUsizeHuffmanTable,
}

impl SdbReader {
    pub closed spec fn wf(&self) -> bool {
        &&& self.stream.wf()
        &&& self.natural3_table == nat_table(3)
        &&& self.natural4_table == nat_table(4)
        &&& self.natural8_table == nat_table(8)
        &&& self.integer8_table == int_table(8)
        &&& self.natural2_usize_table == nat_usize_table(2)
        &&& self.natural8_usize_table == nat_usize_table(8)
    }

    /// The bits the reader has yet to consume.
    pub closed spec fn bits(&self) -> Seq<bool> {
        self.stream.bits()
    }

    pub fn new(stream: InputBitStream) -> (r: Self)
        requires
            stream.wf(),
        ensures
            r.wf(),
            r.bits() == stream.bits(),
    {
        Self {
            stream,
            natural3_table: NaturalNumberHuffmanTable::create_with_alignment(3),
            natural4_table: NaturalNumberHuffmanTable::create_with_alignment(4),
            natural8_table: NaturalNumberHuffmanTable::create_with_alignment(8),
            integer8_table: IntegerNumberHuffmanTable::create_with_alignment(8),
            natural2_usize_table: NaturalUsizeHuffmanTable::create_with_alignment(2),
            natural8_usize_table: NaturalUsizeHuffmanTable::create_with_alignment(8),
        }
    }
}

/// Reading `k` characters out of the stored character table.
pub open spec fn spec_chars_loop(
    ct: DefinedShape<char>,
    s: Seq<bool>,
    k: int,
    acc: Seq<char>,
) -> Decoded<Seq<char>>
    decreases k,
{
    if k <= 0 {
        Decoded::Done { value: acc, rest: s }
    } else {
        match spec_read_symbol(&ct, s) {
            Decoded::Fail { err } => Decoded::Fail { err },
            Decoded::Done { value, rest } => spec_chars_loop(ct, rest, k - 1, acc.push(value)),
        }
    }
}

/// Reading `n` symbol arrays: a length out of the length table, then that
/// many characters.
pub open spec fn spec_symbol_arrays(
    lt: DefinedShape<u32>,
    ct: DefinedShape<char>,
    s: Seq<bool>,
    n: int,
    acc: Seq<Seq<char>>,
) -> Decoded<Seq<Seq<char>>>
    decreases n,
{
    if n <= 0 {
        Decoded::Done { value: acc, rest: s }
    } else {
        match spec_read_symbol(&lt, s) {
            Decoded::Fail { err } => Decoded::Fail { err },
            Decoded::Done { value: len, rest } => {
                match spec_chars_loop(ct, rest, len as int, Seq::empty()) {
                    Decoded::Fail { err } => Decoded::Fail { err },
                    Decoded::Done { value: chars, rest: rest2 } => spec_symbol_arrays(
                        lt,
                        ct,
                        rest2,
                        n - 1,
                        acc.push(chars),
                    ),
                }
            },
        }
    }
}

/// Reading the language list: each code from a range that starts just
/// past the previous code, then the alphabet count.
pub open spec fn spec_languages(s: Seq<bool>, n: int, first_valid: u32, acc: Seq<Language>) -> Decoded<
    Seq<Language>,
>
    decreases n,
{
    if n <= 0 {
        Decoded::Done { value: acc, rest: s }
    } else if first_valid > 675 {
        Decoded::Fail { err: ReadError::FormatViolation }
    } else {
        match spec_read_symbol(&spec_ranged(first_valid, 675), s) {
            Decoded::Fail { err } => Decoded::Fail { err },
            Decoded::Done { value: code, rest } => {
                match spec_read_symbol(&nat_usize_table(2), rest) {
                    Decoded::Fail { err } => Decoded::Fail { err },
                    Decoded::Done { value: nalph, rest: rest2 } => spec_languages(
                        rest2,
                        n - 1,
                        (code + 1) as u32,
                        acc.push(
                            Language {
                                code: LanguageCode { code: code as u16 },
                                number_of_alphabets: nalph,
                            },
                        ),
                    ),
                }
            },
        }
    }
}

/// The whole language stage: the count, then the list.
pub open spec fn spec_read_languages(s: Seq<bool>) -> Decoded<Seq<Language>> {
    match spec_read_symbol(&nat_usize_table(8), s) {
        Decoded::Fail { err } => Decoded::Fail { err },
        Decoded::Done { value: n, rest } => spec_languages(rest, n as int, 0, Seq::empty()),
    }
}

impl SdbReader {
    /// Reads the symbol arrays: for each, a length and that many
    /// characters.
    #[verifier::loop_isolation(false)]
    fn read_symbol_arrays(
        &mut self,
        symbol_array_count: usize,
        symbol_arrays_length_table: &DefinedHuffmanTable<u32>,
        chars_table: &DefinedHuffmanTable<char>,
        Ghost(lt): Ghost<DefinedShape<u32>>,
        Ghost(ct): Ghost<DefinedShape<char>>,
    ) -> (r: Result<Vec<Vec<char>>, ReadError>)
        requires
            old(self).wf(),
            symbol_arrays_length_table.wf(),
            chars_table.wf(),
            table_matches_shape(symbol_arrays_length_table, lt),
            table_matches_shape(chars_table, ct),
        ensures
            final(self).wf(),
            match spec_symbol_arrays(lt, ct, old(self).bits(), symbol_array_count as int, Seq::empty()) {
                Decoded::Done { value, rest } => r matches Ok(v) && v@.map_values(
                    |x: Vec<char>| x@,
                ) == value && v@.len() == symbol_array_count && final(self).bits() == rest,
                Decoded::Fail { err } => r == Err::<Vec<Vec<char>>, ReadError>(err),
            },
    {
        proof {
            assert(Seq::<Vec<char>>::empty().map_values(|x: Vec<char>| x@) =~= Seq::<
                Seq<char>,
            >::empty());
        }
        let mut symbol_arrays: Vec<Vec<char>> = Vec::new();
        let mut i: usize = 0;
        while i < symbol_array_count
            invariant
                self.wf(),
                i <= symbol_array_count,
                symbol_arrays@.len() == i,
                spec_symbol_arrays(lt, ct, old(self).bits(), symbol_array_count as int, Seq::empty())
                    == spec_symbol_arrays(
                    lt,
                    ct,
                    self.bits(),
                    symbol_array_count - i,
                    symbol_arrays@.map_values(|x: Vec<char>| x@),
                ),
            decreases symbol_array_count - i,
        {
            let ghost pre = self.bits();
            proof {
                lemma_read_symbol_congruent(symbol_arrays_length_table, &lt, pre);
            }
            let length = match self.stream.read_symbol(symbol_arrays_length_table) {
                Ok(v) => v,
                Err(e) => {
                    return Err(e);
                },
            };
            let mut array: Vec<char> = Vec::new();
            let mut j: u32 = 0;
            let ghost s_chars = self.bits();
            let ghost acc_map = symbol_arrays@.map_values(|x: Vec<char>| x@);
            while j < length
                invariant
                    self.wf(),
                    j <= length,
                    array@.len() == j,
                    spec_symbol_arrays(
                        lt,
                        ct,
                        old(self).bits(),
                        symbol_array_count as int,
                        Seq::empty(),
                    ) == (match spec_chars_loop(ct, self.bits(), length - j, array@) {
                        Decoded::Done { value: chars, rest: rest2 } => spec_symbol_arrays(
                            lt,
                            ct,
                            rest2,
                            symbol_array_count - i - 1,
                            acc_map.push(chars),
                        ),
                        Decoded::Fail { err } => Decoded::Fail { err },
                    }),
                decreases length - j,
            {
                let ghost pre2 = self.bits();
                proof {
                    lemma_read_symbol_congruent(chars_table, &ct, pre2);
                }
                let c = match self.stream.read_symbol(chars_table) {
                    Ok(v) => v,
                    Err(e) => {
                        return Err(e);
                    },
                };
                array.push(c);
                j = j + 1;
            }
            symbol_arrays.push(array);
            i = i + 1;
            proof {
                assert(symbol_arrays@.map_values(|x: Vec<char>| x@) =~= acc_map.push(array@));
            }
        }
        Ok(symbol_arrays)
    }

    /// Reads the language list; codes come out strictly ascending.
    #[verifier::loop_isolation(false)]
    fn read_languages(&mut self) -> (r: Result<Vec<Language>, ReadError>)
        requires
            old(self).wf(),
        ensures
            final(self).wf(),
            match spec_read_languages(old(self).bits()) {
                Decoded::Done { value, rest } => r matches Ok(v) && v@ == value
                    && final(self).bits() == rest && (forall|i: int, j: int|
                    0 <= i < j < value.len() ==> #[trigger] value[i].code.code
                        < #[trigger] value[j].code.code) && (forall|i: int|
                    0 <= i < value.len() ==> #[trigger] value[i].code.code < 676),
                Decoded::Fail { err } => r == Err::<Vec<Language>, ReadError>(err),
            },
    {
        let language_count = match self.stream.read_symbol(&self.natural8_usize_table) {
            Ok(v) => v,
            Err(e) => {
                return Err(e);
            },
        };
        let ghost s1 = self.bits();
        let mut first_valid: u32 = 0;
        let mut languages: Vec<Language> = Vec::new();
        let mut i: usize = 0;
        while i < language_count
            invariant
                self.wf(),
                i <= language_count,
                languages@.len() == i,
                first_valid <= 676,
                forall|k: int|
                    0 <= k < languages@.len() ==> #[trigger] languages@[k].code.code < first_valid,
                forall|k: int, l: int|
                    0 <= k < l < languages@.len() ==> #[trigger] languages@[k].code.code
                        < #[trigger] languages@[l].code.code,
                spec_languages(s1, language_count as int, 0, Seq::empty()) == spec_languages(
                    self.bits(),
                    language_count - i,
                    first_valid,
                    languages@,
                ),
            decreases language_count - i,
        {
            if first_valid > 675 {
                return Err(ReadError::FormatViolation);
            }
            let table = RangedIntegerHuffmanTable::new(first_valid, 675);
            let ghost pre = self.bits();
            let raw_code = match self.stream.read_symbol(&table) {
                Ok(v) => v,
                Err(e) => {
                    return Err(e);
                },
            };
            proof {
                crate::codec::lemma_ranged_symbol_bounds(first_valid, 675, pre);
            }
            let code = LanguageCode::new(raw_code);
            first_valid = raw_code + 1;
            let number_of_alphabets = match self.stream.read_symbol(&self.natural2_usize_table) {
                Ok(v) => v,
                Err(e) => {
                    return Err(e);
                },
            };
            languages.push(Language { code, number_of_alphabets });
            i = i + 1;
        }
        Ok(languages)
    }
}

/// Reading `k` pairs of symbol-array references for one conversion.
pub open spec fn spec_pairs(
    s: Seq<bool>,
    k: int,
    sa_table: RangedIntegerHuffmanTable,
    acc: Seq<(SymbolArrayIndex, SymbolArrayIndex)>,
) -> Decoded<Seq<(SymbolArrayIndex, SymbolArrayIndex)>>
    decreases k,
{
    if k <= 0 {
        Decoded::Done { value: acc, rest: s }
    } else {
        match spec_read_symbol(&sa_table, s) {
            Decoded::Fail { err } => Decoded::Fail { err },
            Decoded::Done { value: src, rest } => {
                match spec_read_symbol(&sa_table, rest) {
                    Decoded::Fail { err } => Decoded::Fail { err },
                    Decoded::Done { value: tgt, rest: rest2 } => spec_pairs(
                        rest2,
                        k - 1,
                        sa_table,
                        acc.push(
                            (
                                SymbolArrayIndex { index: src as usize },
                                SymbolArrayIndex { index: tgt as usize },
                            ),
                        ),
                    ),
                }
            },
        }
    }
}

/// Reading `n` conversions. Sources never decrease; within one source the
/// targets strictly increase, which the narrowing minimums enforce.
pub open spec fn spec_conversions(
    s: Seq<bool>,
    n: int,
    a_count: usize,
    sa_count: usize,
    min_src: usize,
    min_tgt: usize,
    acc: Seq<ConversionModel>,
) -> Decoded<Seq<ConversionModel>>
    decreases n,
{
    if n <= 0 {
        Decoded::Done { value: acc, rest: s }
    } else if a_count == 0 || a_count > 0x80000000 {
        Decoded::Fail { err: ReadError::FormatViolation }
    } else {
        match spec_read_symbol(&spec_ranged_usize(min_src, (a_count - 1) as usize), s) {
            Decoded::Fail { err } => Decoded::Fail { err },
            Decoded::Done { value: src, rest } => {
                let tgt_min: usize = if src != min_src {
                    0
                } else {
                    min_tgt
                };
                if tgt_min > a_count - 1 {
                    Decoded::Fail { err: ReadError::FormatViolation }
                } else {
                    match spec_read_symbol(&spec_ranged_usize(tgt_min, (a_count - 1) as usize), rest) {
                        Decoded::Fail { err } => Decoded::Fail { err },
                        Decoded::Done { value: tgt, rest: rest2 } => {
                            match spec_read_symbol(&nat_usize_table(8), rest2) {
                                Decoded::Fail { err } => Decoded::Fail { err },
                                Decoded::Done { value: pc, rest: rest3 } => {
                                    match spec_pairs(
                                        rest3,
                                        pc as int,
                                        spec_ranged(0, (sa_count - 1) as u32),
                                        Seq::empty(),
                                    ) {
                                        Decoded::Fail { err } => Decoded::Fail { err },
                                        Decoded::Done { value: pairs, rest: rest4 } => spec_conversions(
                                            rest4,
                                            n - 1,
                                            a_count,
                                            sa_count,
                                            src,
                                            (tgt + 1) as usize,
                                            acc.push(
                                                ConversionModel {
                                                    source: Alphabet { index: src },
                                                    target: Alphabet { index: tgt },
                                                    pairs,
                                                },
                                            ),
                                        ),
                                    }
                                },
                            }
                        },
                    }
                }
            },
        }
    }
}

/// The whole conversion stage: the count, a bound check on the symbol
/// array range, then the list.
pub open spec fn spec_read_conversions(s: Seq<bool>, a_count: usize, sa_count: usize) -> Decoded<
    Seq<ConversionModel>,
> {
    match spec_read_symbol(&nat_usize_table(8), s) {
        Decoded::Fail { err } => Decoded::Fail { err },
        Decoded::Done { value: n, rest } => {
            if sa_count > 0x80000000 {
                Decoded::Fail { err: ReadError::FormatViolation }
            } else {
                spec_conversions(rest, n as int, a_count, sa_count, 0, 0, Seq::empty())
            }
        },
    }
}

/// Adjacent lexicographic order of two conversions.
pub open spec fn conversion_lex_before(a: ConversionModel, b: ConversionModel) -> bool {
    a.source.index < b.source.index || (a.source.index == b.source.index && a.target.index
        < b.target.index)
}

impl SdbReader {
    /// Reads the conversion list.
    #[verifier::loop_isolation(false)]
    #[verifier::rlimit(60)]
    fn read_conversions(&mut self, alphabet_count: usize, symbol_array_count: usize) -> (r: Result<
        Vec<Conversion>,
        ReadError,
    >)
        requires
            old(self).wf(),
            symbol_array_count >= 1,
        ensures
            final(self).wf(),
            match spec_read_conversions(old(self).bits(), alphabet_count, symbol_array_count) {
                Decoded::Done { value, rest } => r matches Ok(v) && v@.map_values(
                    |c: Conversion| conversion_view(c),
                ) == value && final(self).bits() == rest && (forall|i: int|
                    0 <= i < v@.len() - 1 ==> conversion_lex_before(
                        conversion_view(#[trigger] v@[i]),
                        conversion_view(v@[i + 1]),
                    )) && (forall|i: int|
                    0 <= i < v@.len() ==> (#[trigger] v@[i]).source.index < alphabet_count
                        && v@[i].target.index < alphabet_count) && (forall|i: int, j: int|
                    0 <= i < v@.len() && 0 <= j < (#[trigger] v@[i]).pairs@.len() ==> (
                    #[trigger] v@[i].pairs@[j]).0.index < symbol_array_count
                        && v@[i].pairs@[j].1.index < symbol_array_count),
                Decoded::Fail { err } => r == Err::<Vec<Conversion>, ReadError>(err),
            },
    {
        proof {
            assert(Seq::<Conversion>::empty().map_values(|c: Conversion| conversion_view(c)) =~= Seq::<
                ConversionModel,
            >::empty());
        }
        let number_of_conversions = match self.stream.read_symbol(&self.natural8_usize_table) {
            Ok(v) => v,
            Err(e) => {
                return Err(e);
            },
        };
        if symbol_array_count > 0x80000000 {
            return Err(ReadError::FormatViolation);
        }
        let symbol_array_table = RangedIntegerHuffmanTable::new(
            0,
            (symbol_array_count - 1) as u32,
        );
        let ghost s1 = self.bits();
        let mut min_source_alphabet: usize = 0;
        let mut min_target_alphabet: usize = 0;
        let mut conversions: Vec<Conversion> = Vec::new();
        let mut i: usize = 0;
        while i < number_of_conversions
            invariant
                self.wf(),
                i <= number_of_conversions,
                conversions@.len() == i,
                min_source_alphabet == 0 || min_source_alphabet < alphabet_count,
                symbol_array_table == spec_ranged(0, (symbol_array_count - 1) as u32),
                forall|k: int|
                    0 <= k < conversions@.len() - 1 ==> conversion_lex_before(
                        conversion_view(#[trigger] conversions@[k]),
                        conversion_view(conversions@[k + 1]),
                    ),
                forall|k: int|
                    0 <= k < conversions@.len() ==> (#[trigger] conversions@[k]).source.index
                        < alphabet_count && conversions@[k].target.index < alphabet_count,
                forall|k: int, j: int|
                    0 <= k < conversions@.len() && 0 <= j < (#[trigger] conversions@[k]).pairs@.len()
                        ==> (#[trigger] conversions@[k].pairs@[j]).0.index < symbol_array_count
                        && conversions@[k].pairs@[j].1.index < symbol_array_count,
                conversions@.len() > 0 ==> ((conversions@.last().source.index
                    < min_source_alphabet) || (conversions@.last().source.index
                    == min_source_alphabet && conversions@.last().target.index
                    < min_target_alphabet)),
                spec_conversions(
                    s1,
                    number_of_conversions as int,
                    alphabet_count,
                    symbol_array_count,
                    0,
                    0,
                    Seq::empty(),
                ) == spec_conversions(
                    self.bits(),
                    number_of_conversions - i,
                    alphabet_count,
                    symbol_array_count,
                    min_source_alphabet,
                    min_target_alphabet,
                    conversions@.map_values(|c: Conversion| conversion_view(c)),
                ),
            decreases number_of_conversions - i,
        {
            if alphabet_count == 0 || alphabet_count > 0x80000000 {
                return Err(ReadError::FormatViolation);
            }
            let max_valid_alphabet = alphabet_count - 1;
            let source_alphabet_table = RangedNaturalUsizeHuffmanTable::new(
                min_source_alphabet,
                max_valid_alphabet,
            );
            let ghost pre = self.bits();
            let source_alphabet_index = match self.stream.read_symbol(&source_alphabet_table) {
                Ok(v) => v,
                Err(e) => {
                    return Err(e);
                },
            };
            proof {
                lemma_ranged_usize_symbol_bounds(min_source_alphabet, max_valid_alphabet, pre);
            }
            let source_alphabet = Alphabet { index: source_alphabet_index };
            if min_source_alphabet != source_alphabet_index {
                min_target_alphabet = 0;
                min_source_alphabet = source_alphabet_index;
            }
            if min_target_alphabet > max_valid_alphabet {
                return Err(ReadError::FormatViolation);
            }
            let target_alphabet_table = RangedNaturalUsizeHuffmanTable::new(
                min_target_alphabet,
                max_valid_alphabet,
            );
            let ghost pre2 = self.bits();
            let target_alphabet_index = match self.stream.read_symbol(&target_alphabet_table) {
                Ok(v) => v,
                Err(e) => {
                    return Err(e);
                },
            };
            proof {
                lemma_ranged_usize_symbol_bounds(min_target_alphabet, max_valid_alphabet, pre2);
            }
            let target_alphabet = Alphabet { index: target_alphabet_index };
            min_target_alphabet = target_alphabet_index + 1;
            let pair_count = match self.stream.read_symbol(&self.natural8_usize_table) {
                Ok(v) => v,
                Err(e) => {
                    return Err(e);
                },
            };
            let ghost acc_map = conversions@.map_values(|c: Conversion| conversion_view(c));
            let mut pairs: Vec<(SymbolArrayIndex, SymbolArrayIndex)> = Vec::new();
            let mut p: usize = 0;
            while p < pair_count
                invariant
                    self.wf(),
                    p <= pair_count,
                    pairs@.len() == p,
                    forall|j: int|
                        0 <= j < pairs@.len() ==> (#[trigger] pairs@[j]).0.index
                            < symbol_array_count && pairs@[j].1.index < symbol_array_count,
                    spec_conversions(
                        s1,
                        number_of_conversions as int,
                        alphabet_count,
                        symbol_array_count,
                        0,
                        0,
                        Seq::empty(),
                    ) == (match spec_pairs(
                        self.bits(),
                        pair_count - p,
                        symbol_array_table,
                        pairs@,
                    ) {
                        Decoded::Done { value: prs, rest: rest4 } => spec_conversions(
                            rest4,
                            number_of_conversions - i - 1,
                            alphabet_count,
                            symbol_array_count,
                            source_alphabet_index,
                            (target_alphabet_index + 1) as usize,
                            acc_map.push(
                                ConversionModel {
                                    source: source_alphabet,
                                    target: target_alphabet,
                                    pairs: prs,
                                },
                            ),
                        ),
                        Decoded::Fail { err } => Decoded::Fail { err },
                    }),
                decreases pair_count - p,
            {
                let ghost pre3 = self.bits();
                let src = match self.stream.read_symbol(&symbol_array_table) {
                    Ok(v) => v,
                    Err(e) => {
                        return Err(e);
                    },
                };
                let ghost pre4 = self.bits();
                let tgt = match self.stream.read_symbol(&symbol_array_table) {
                    Ok(v) => v,
                    Err(e) => {
                        return Err(e);
                    },
                };
                proof {
                    crate::codec::lemma_ranged_symbol_bounds(
                        0,
                        (symbol_array_count - 1) as u32,
                        pre3,
                    );
                    crate::codec::lemma_ranged_symbol_bounds(
                        0,
                        (symbol_array_count - 1) as u32,
                        pre4,
                    );
                }
                let source = SymbolArrayIndex { index: src as usize };
                let target = SymbolArrayIndex { index: tgt as usize };
                pairs.push((source, target));
                p = p + 1;
            }
            conversions.push(
                Conversion { source: source_alphabet, target: target_alphabet, pairs },
            );
            i = i + 1;
            proof {
                assert(conversions@.map_values(|c: Conversion| conversion_view(c)) =~= acc_map.push(
                    conversion_view(conversions@.last()),
                ));
            }
        }
        Ok(conversions)
    }
}

/// Reading the remaining keys and values of one correlation, keys
/// strictly increasing.
pub open spec fn spec_correlation_entries(
    s: Seq<bool>,
    a_count: usize,
    sa_count: usize,
    ml: int,
    i: int,
    prev: usize,
    acc: Seq<(Alphabet, SymbolArrayIndex)>,
) -> Decoded<Seq<(Alphabet, SymbolArrayIndex)>>
    decreases ml - i,
{
    if i >= ml {
        Decoded::Done { value: acc, rest: s }
    } else {
        match spec_read_symbol(
            &spec_ranged_usize((prev + 1) as usize, (a_count - ml + i) as usize),
            s,
        ) {
            Decoded::Fail { err } => Decoded::Fail { err },
            Decoded::Done { value: k, rest } => {
                match spec_read_symbol(&spec_ranged_usize(0, (sa_count - 1) as usize), rest) {
                    Decoded::Fail { err } => Decoded::Fail { err },
                    Decoded::Done { value: v, rest: rest2 } => spec_correlation_entries(
                        rest2,
                        a_count,
                        sa_count,
                        ml,
                        i + 1,
                        k,
                        acc.push((Alphabet { index: k }, SymbolArrayIndex { index: v })),
                    ),
                }
            },
        }
    }
}

/// Reading `n` correlations: each a length out of the stored length
/// table, then that many key/value entries. A length that is negative or
/// not below the alphabet count is structurally invalid.
pub open spec fn spec_correlations(
    s: Seq<bool>,
    lt: DefinedShape<i32>,
    n: int,
    a_count: usize,
    sa_count: usize,
    acc: Seq<Seq<(Alphabet, SymbolArrayIndex)>>,
) -> Decoded<Seq<Seq<(Alphabet, SymbolArrayIndex)>>>
    decreases n,
{
    if n <= 0 {
        Decoded::Done { value: acc, rest: s }
    } else {
        match spec_read_symbol(&lt, s) {
            Decoded::Fail { err } => Decoded::Fail { err },
            Decoded::Done { value: ml32, rest } => {
                if ml32 < 0 || ml32 as int >= a_count as int {
                    Decoded::Fail { err: ReadError::FormatViolation }
                } else if ml32 == 0 {
                    spec_correlations(rest, lt, n - 1, a_count, sa_count, acc.push(Seq::empty()))
                } else {
                    match spec_read_symbol(
                        &spec_ranged_usize(0, (a_count - ml32) as usize),
                        rest,
                    ) {
                        Decoded::Fail { err } => Decoded::Fail { err },
                        Decoded::Done { value: k0, rest: rest2 } => {
                            match spec_read_symbol(
                                &spec_ranged_usize(0, (sa_count - 1) as usize),
                                rest2,
                            ) {
                                Decoded::Fail { err } => Decoded::Fail { err },
                                Decoded::Done { value: v0, rest: rest3 } => {
                                    match spec_correlation_entries(
                                        rest3,
                                        a_count,
                                        sa_count,
                                        ml32 as int,
                                        1,
                                        k0,
                                        seq![
                                            (Alphabet { index: k0 }, SymbolArrayIndex { index: v0 }),
                                        ],
                                    ) {
                                        Decoded::Fail { err } => Decoded::Fail { err },
                                        Decoded::Done { value: entries, rest: rest4 } => spec_correlations(
                                            rest4,
                                            lt,
                                            n - 1,
                                            a_count,
                                            sa_count,
                                            acc.push(entries),
                                        ),
                                    }
                                },
                            }
                        },
                    }
                }
            },
        }
    }
}

/// The whole correlation stage: the count, the stored length table, then
/// the list.
pub open spec fn spec_read_correlations(s: Seq<bool>, a_count: usize, sa_count: usize) -> Decoded<
    Seq<Seq<(Alphabet, SymbolArrayIndex)>>,
> {
    match spec_read_symbol(&nat_usize_table(8), s) {
        Decoded::Fail { err } => Decoded::Fail { err },
        Decoded::Done { value: n, rest } => {
            if n == 0 {
                Decoded::Done { value: Seq::empty(), rest }
            } else if a_count > 0x80000000 || sa_count > 0x80000000 {
                Decoded::Fail { err: ReadError::FormatViolation }
            } else {
                match spec_read_table(&signed_length_elements(), rest) {
                    Decoded::Fail { err } => Decoded::Fail { err },
                    Decoded::Done { value: lt, rest: rest2 } => spec_correlations(
                        rest2,
                        lt,
                        n as int,
                        a_count,
                        sa_count,
                        Seq::empty(),
                    ),
                }
            }
        },
    }
}

impl SdbReader {
    /// Reads the correlation list. Keys come out strictly increasing
    /// inside each correlation, and all references are in range.
    #[verifier::loop_isolation(false)]
    #[verifier::rlimit(60)]
    fn read_correlations(&mut self, alphabet_count: usize, symbol_array_count: usize) -> (r:
        Result<Vec<Vec<(Alphabet, SymbolArrayIndex)>>, ReadError>)
        requires
            old(self).wf(),
            symbol_array_count >= 1,
        ensures
            final(self).wf(),
            match spec_read_correlations(old(self).bits(), alphabet_count, symbol_array_count) {
                Decoded::Done { value, rest } => r matches Ok(v) && v@.map_values(
                    |x: Vec<(Alphabet, SymbolArrayIndex)>| x@,
                ) == value && final(self).bits() == rest && (forall|i: int, j: int|
                    0 <= i < v@.len() && 0 <= j < (#[trigger] v@[i])@.len() - 1 ==> (
                    #[trigger] v@[i]@[j]).0.index < v@[i]@[j + 1].0.index) && (forall|i: int, j: int|
                    0 <= i < v@.len() && 0 <= j < (#[trigger] v@[i])@.len() ==> (
                    #[trigger] v@[i]@[j]).0.index < alphabet_count && v@[i]@[j].1.index
                        < symbol_array_count),
                Decoded::Fail { err } => r == Err::<Vec<Vec<(Alphabet, SymbolArrayIndex)>>, ReadError>(
                    err,
                ),
            },
    {
        proof {
            assert(Seq::<Vec<(Alphabet, SymbolArrayIndex)>>::empty().map_values(
                |x: Vec<(Alphabet, SymbolArrayIndex)>| x@,
            ) =~= Seq::<Seq<(Alphabet, SymbolArrayIndex)>>::empty());
        }
        let number_of_correlations = match self.stream.read_symbol(&self.natural8_usize_table) {
            Ok(v) => v,
            Err(e) => {
                return Err(e);
            },
        };
        let mut correlations: Vec<Vec<(Alphabet, SymbolArrayIndex)>> = Vec::new();
        if number_of_correlations == 0 {
            return Ok(correlations);
        }
        if alphabet_count > 0x80000000 || symbol_array_count > 0x80000000 {
            return Err(ReadError::FormatViolation);
        }
        let reader = I32ElementReader { base: self.integer8_table, diff: self.natural8_table };
        let ghost pre_table = self.bits();
        let length_table = match self.stream.read_table(&reader) {
            Ok(t) => t,
            Err(e) => {
                return Err(e);
            },
        };
        let ghost lt = (match spec_read_table(&signed_length_elements(), pre_table) {
            Decoded::Done { value, rest } => value,
            Decoded::Fail { err } => DefinedShape { levels: Seq::empty(), symbols: Seq::empty() },
        });
        let ghost s1 = self.bits();
        let mut i: usize = 0;
        while i < number_of_correlations
            invariant
                self.wf(),
                i <= number_of_correlations,
                correlations@.len() == i,
                length_table.wf(),
                table_matches_shape(&length_table, lt),
                forall|k: int, j: int|
                    0 <= k < correlations@.len() && 0 <= j < (#[trigger] correlations@[k])@.len()
                        - 1 ==> (#[trigger] correlations@[k]@[j]).0.index < correlations@[k]@[j
                        + 1].0.index,
                forall|k: int, j: int|
                    0 <= k < correlations@.len() && 0 <= j < (#[trigger] correlations@[k])@.len()
                        ==> (#[trigger] correlations@[k]@[j]).0.index < alphabet_count
                        && correlations@[k]@[j].1.index < symbol_array_count,
                spec_correlations(
                    s1,
                    lt,
                    number_of_correlations as int,
                    alphabet_count,
                    symbol_array_count,
                    Seq::empty(),
                ) == spec_correlations(
                    self.bits(),
                    lt,
                    number_of_correlations - i,
                    alphabet_count,
                    symbol_array_count,
                    correlations@.map_values(|x: Vec<(Alphabet, SymbolArrayIndex)>| x@),
                ),
            decreases number_of_correlations - i,
        {
            let ghost pre = self.bits();
            proof {
                lemma_read_symbol_congruent(&length_table, &lt, pre);
            }
            let ml32 = match self.stream.read_symbol(&length_table) {
                Ok(v) => v,
                Err(e) => {
                    return Err(e);
                },
            };
            if ml32 < 0 {
                return Err(ReadError::FormatViolation);
            }
            let map_length = ml32 as usize;
            if map_length >= alphabet_count {
                return Err(ReadError::FormatViolation);
            }
            let ghost acc_map = correlations@.map_values(
                |x: Vec<(Alphabet, SymbolArrayIndex)>| x@,
            );
            let mut map: Vec<(Alphabet, SymbolArrayIndex)> = Vec::new();
            if map_length > 0 {
                let key_table = RangedNaturalUsizeHuffmanTable::new(
                    0,
                    alphabet_count - map_length,
                );
                let value_table = RangedNaturalUsizeHuffmanTable::new(
                    0,
                    symbol_array_count - 1,
                );
                let ghost pre2 = self.bits();
                let mut raw_key = match self.stream.read_symbol(&key_table) {
                    Ok(v) => v,
                    Err(e) => {
                        return Err(e);
                    },
                };
                proof {
                    lemma_ranged_usize_symbol_bounds(0, (alphabet_count - map_length) as usize, pre2);
                }
                let ghost pre3 = self.bits();
                let value0 = match self.stream.read_symbol(&value_table) {
                    Ok(v) => v,
                    Err(e) => {
                        return Err(e);
                    },
                };
                proof {
                    lemma_ranged_usize_symbol_bounds(0, (symbol_array_count - 1) as usize, pre3);
                }
                map.push((Alphabet { index: raw_key }, SymbolArrayIndex { index: value0 }));
                proof {
                    assert(map@ =~= seq![
                        (Alphabet { index: raw_key }, SymbolArrayIndex { index: value0 }),
                    ]);
                }
                let mut mi: usize = 1;
                while mi < map_length
                    invariant
                        self.wf(),
                        1 <= mi <= map_length,
                        map@.len() == mi,
                        raw_key <= alphabet_count - map_length + mi - 1,
                        map@.last().0.index == raw_key,
                        forall|j: int|
                            0 <= j < map@.len() - 1 ==> (#[trigger] map@[j]).0.index < map@[j
                                + 1].0.index,
                        forall|j: int|
                            0 <= j < map@.len() ==> (#[trigger] map@[j]).0.index < alphabet_count
                                && map@[j].1.index < symbol_array_count,
                        spec_correlations(
                            s1,
                            lt,
                            number_of_correlations as int,
                            alphabet_count,
                            symbol_array_count,
                            Seq::empty(),
                        ) == (match spec_correlation_entries(
                            self.bits(),
                            alphabet_count,
                            symbol_array_count,
                            map_length as int,
                            mi as int,
                            raw_key,
                            map@,
                        ) {
                            Decoded::Done { value: entries, rest: rest4 } => spec_correlations(
                                rest4,
                                lt,
                                number_of_correlations - i - 1,
                                alphabet_count,
                                symbol_array_count,
                                acc_map.push(entries),
                            ),
                            Decoded::Fail { err } => Decoded::Fail { err },
                        }),
                    decreases map_length - mi,
                {
                    let key_diff_table = RangedNaturalUsizeHuffmanTable::new(
                        raw_key + 1,
                        alphabet_count - map_length + mi,
                    );
                    let ghost pre4 = self.bits();
                    let new_key = match self.stream.read_symbol(&key_diff_table) {
                        Ok(v) => v,
                        Err(e) => {
                            return Err(e);
                        },
                    };
                    proof {
                        lemma_ranged_usize_symbol_bounds(
                            (raw_key + 1) as usize,
                            (alphabet_count - map_length + mi) as usize,
                            pre4,
                        );
                    }
                    raw_key = new_key;
                    let ghost pre5 = self.bits();
                    let value = match self.stream.read_symbol(&value_table) {
                        Ok(v) => v,
                        Err(e) => {
                            return Err(e);
                        },
                    };
                    proof {
                        lemma_ranged_usize_symbol_bounds(0, (symbol_array_count - 1) as usize, pre5);
                    }
                    map.push((Alphabet { index: raw_key }, SymbolArrayIndex { index: value }));
                    mi = mi + 1;
                }
            }
            correlations.push(map);
            i = i + 1;
            proof {
                assert(correlations@.map_values(|x: Vec<(Alphabet, SymbolArrayIndex)>| x@)
                    =~= acc_map.push(correlations@.last()@));
            }
        }
        Ok(correlations)
    }
}

/// Reading `k` correlation references for one correlation array.
pub open spec fn spec_corr_array_items(
    s: Seq<bool>,
    k: int,
    n_corr: usize,
    acc: Seq<CorrelationIndex>,
) -> Decoded<Seq<CorrelationIndex>>
    decreases k,
{
    if k <= 0 {
        Decoded::Done { value: acc, rest: s }
    } else {
        match spec_read_symbol(&spec_ranged_usize(0, (n_corr - 1) as usize), s) {
            Decoded::Fail { err } => Decoded::Fail { err },
            Decoded::Done { value, rest } => spec_corr_array_items(
                rest,
                k - 1,
                n_corr,
                acc.push(CorrelationIndex { index: value }),
            ),
        }
    }
}

/// Reading `n` correlation arrays, each a signed length then that many
/// references.
pub open spec fn spec_correlation_arrays(
    s: Seq<bool>,
    lt: DefinedShape<i32>,
    n: int,
    n_corr: usize,
    acc: Seq<Seq<CorrelationIndex>>,
) -> Decoded<Seq<Seq<CorrelationIndex>>>
    decreases n,
{
    if n <= 0 {
        Decoded::Done { value: acc, rest: s }
    } else {
        match spec_read_symbol(&lt, s) {
            Decoded::Fail { err } => Decoded::Fail { err },
            Decoded::Done { value: l32, rest } => {
                if l32 < 0 {
                    Decoded::Fail { err: ReadError::FormatViolation }
                } else {
                    match spec_corr_array_items(rest, l32 as int, n_corr, Seq::empty()) {
                        Decoded::Fail { err } => Decoded::Fail { err },
                        Decoded::Done { value: items, rest: rest2 } => spec_correlation_arrays(
                            rest2,
                            lt,
                            n - 1,
                            n_corr,
                            acc.push(items),
                        ),
                    }
                }
            },
        }
    }
}

/// The whole correlation-array stage.
pub open spec fn spec_read_correlation_arrays(s: Seq<bool>, n_corr: usize) -> Decoded<
    Seq<Seq<CorrelationIndex>>,
> {
    match spec_read_symbol(&nat_usize_table(8), s) {
        Decoded::Fail { err } => Decoded::Fail { err },
        Decoded::Done { value: n, rest } => {
            if n == 0 {
                Decoded::Done { value: Seq::empty(), rest }
            } else if n_corr == 0 {
                Decoded::Fail { err: ReadError::InvalidRange }
            } else if n_corr > 0x80000000 {
                Decoded::Fail { err: ReadError::FormatViolation }
            } else {
                match spec_read_table(&signed_length_elements(), rest) {
                    Decoded::Fail { err } => Decoded::Fail { err },
                    Decoded::Done { value: lt, rest: rest2 } => spec_correlation_arrays(
                        rest2,
                        lt,
                        n as int,
                        n_corr,
                        Seq::empty(),
                    ),
                }
            }
        },
    }
}

/// Reading the remaining correlation-array references of one acceptation
/// group: the stream stores each next index absolutely, inside a range
/// that starts just past the previous one, so the group is strictly
/// increasing.
pub open spec fn spec_accept_group(
    s: Seq<bool>,
    concept: usize,
    ca_count: usize,
    length: int,
    i: int,
    prev: usize,
    acc: Seq<Acceptation>,
) -> Decoded<Seq<Acceptation>>
    decreases length - i,
{
    if i >= length {
        Decoded::Done { value: acc, rest: s }
    } else {
        match spec_read_symbol(
            &spec_ranged_usize((prev + 1) as usize, (ca_count - length + i) as usize),
            s,
        ) {
            Decoded::Fail { err } => Decoded::Fail { err },
            Decoded::Done { value, rest } => spec_accept_group(
                rest,
                concept,
                ca_count,
                length,
                i + 1,
                value,
                acc.push(
                    Acceptation {
                        concept,
                        correlation_array_index: CorrelationArrayIndex { index: value },
                    },
                ),
            ),
        }
    }
}

/// Reading `n` acceptation groups: a concept, a positive group length,
/// then that many strictly increasing correlation-array references.
pub open spec fn spec_acceptations(
    s: Seq<bool>,
    lt: DefinedShape<i32>,
    n: int,
    c_max: usize,
    ca_count: usize,
    acc: Seq<Acceptation>,
) -> Decoded<Seq<Acceptation>>
    decreases n,
{
    if n <= 0 {
        Decoded::Done { value: acc, rest: s }
    } else {
        match spec_read_symbol(&spec_ranged_usize(1, c_max), s) {
            Decoded::Fail { err } => Decoded::Fail { err },
            Decoded::Done { value: concept, rest } => {
                match spec_read_symbol(&lt, rest) {
                    Decoded::Fail { err } => Decoded::Fail { err },
                    Decoded::Done { value: l32, rest: rest2 } => {
                        if l32 <= 0 || l32 as int > ca_count as int {
                            Decoded::Fail { err: ReadError::FormatViolation }
                        } else {
                            match spec_read_symbol(
                                &spec_ranged_usize(0, (ca_count - l32) as usize),
                                rest2,
                            ) {
                                Decoded::Fail { err } => Decoded::Fail { err },
                                Decoded::Done { value: v0, rest: rest3 } => {
                                    match spec_accept_group(
                                        rest3,
                                        concept,
                                        ca_count,
                                        l32 as int,
                                        1,
                                        v0,
                                        acc.push(
                                            Acceptation {
                                                concept,
                                                correlation_array_index: CorrelationArrayIndex {
                                                    index: v0,
                                                },
                                            },
                                        ),
                                    ) {
                                        Decoded::Fail { err } => Decoded::Fail { err },
                                        Decoded::Done { value: acc2, rest: rest4 } => spec_acceptations(
                                            rest4,
                                            lt,
                                            n - 1,
                                            c_max,
                                            ca_count,
                                            acc2,
                                        ),
                                    }
                                },
                            }
                        }
                    },
                }
            },
        }
    }
}

/// The whole acceptation stage.
pub open spec fn spec_read_acceptations(s: Seq<bool>, c_max: usize, ca_count: usize) -> Decoded<
    Seq<Acceptation>,
> {
    match spec_read_symbol(&nat_usize_table(8), s) {
        Decoded::Fail { err } => Decoded::Fail { err },
        Decoded::Done { value: n, rest } => {
            if n == 0 {
                Decoded::Done { value: Seq::empty(), rest }
            } else if c_max < 1 {
                Decoded::Fail { err: ReadError::InvalidRange }
            } else if c_max > 0x80000000 || ca_count > 0x80000000 {
                Decoded::Fail { err: ReadError::FormatViolation }
            } else {
                match spec_read_table(&signed_length_elements(), rest) {
                    Decoded::Fail { err } => Decoded::Fail { err },
                    Decoded::Done { value: lt, rest: rest2 } => spec_acceptations(
                        rest2,
                        lt,
                        n as int,
                        c_max,
                        ca_count,
                        Seq::empty(),
                    ),
                }
            }
        },
    }
}

impl SdbReader {
    /// Reads the correlation arrays.
    #[verifier::loop_isolation(false)]
    #[verifier::rlimit(60)]
    fn read_correlation_arrays(&mut self, number_of_correlations: usize) -> (r: Result<
        Vec<Vec<CorrelationIndex>>,
        ReadError,
    >)
        requires
            old(self).wf(),
        ensures
            final(self).wf(),
            match spec_read_correlation_arrays(old(self).bits(), number_of_correlations) {
                Decoded::Done { value, rest } => r matches Ok(v) && v@.map_values(
                    |x: Vec<CorrelationIndex>| x@,
                ) == value && final(self).bits() == rest && (forall|i: int, j: int|
                    0 <= i < v@.len() && 0 <= j < (#[trigger] v@[i])@.len() ==> (
                    #[trigger] v@[i]@[j]).index < number_of_correlations),
                Decoded::Fail { err } => r == Err::<Vec<Vec<CorrelationIndex>>, ReadError>(err),
            },
    {
        proof {
            assert(Seq::<Vec<CorrelationIndex>>::empty().map_values(
                |x: Vec<CorrelationIndex>| x@,
            ) =~= Seq::<Seq<CorrelationIndex>>::empty());
        }
        let number_of_arrays = match self.stream.read_symbol(&self.natural8_usize_table) {
            Ok(v) => v,
            Err(e) => {
                return Err(e);
            },
        };
        let mut arrays: Vec<Vec<CorrelationIndex>> = Vec::new();
        if number_of_arrays == 0 {
            return Ok(arrays);
        }
        if number_of_correlations == 0 {
            return Err(ReadError::InvalidRange);
        }
        if number_of_correlations > 0x80000000 {
            return Err(ReadError::FormatViolation);
        }
        let correlation_table = RangedNaturalUsizeHuffmanTable::new(
            0,
            number_of_correlations - 1,
        );
        let reader = I32ElementReader { base: self.integer8_table, diff: self.natural8_table };
        let ghost pre_table = self.bits();
        let length_table = match self.stream.read_table(&reader) {
            Ok(t) => t,
            Err(e) => {
                return Err(e);
            },
        };
        let ghost lt = (match spec_read_table(&signed_length_elements(), pre_table) {
            Decoded::Done { value, rest } => value,
            Decoded::Fail { err } => DefinedShape { levels: Seq::empty(), symbols: Seq::empty() },
        });
        let ghost s1 = self.bits();
        let mut i: usize = 0;
        while i < number_of_arrays
            invariant
                self.wf(),
                i <= number_of_arrays,
                arrays@.len() == i,
                length_table.wf(),
                table_matches_shape(&length_table, lt),
                forall|k: int, j: int|
                    0 <= k < arrays@.len() && 0 <= j < (#[trigger] arrays@[k])@.len() ==> (
                    #[trigger] arrays@[k]@[j]).index < number_of_correlations,
                spec_correlation_arrays(
                    s1,
                    lt,
                    number_of_arrays as int,
                    number_of_correlations,
                    Seq::empty(),
                ) == spec_correlation_arrays(
                    self.bits(),
                    lt,
                    number_of_arrays - i,
                    number_of_correlations,
                    arrays@.map_values(|x: Vec<CorrelationIndex>| x@),
                ),
            decreases number_of_arrays - i,
        {
            let ghost pre = self.bits();
            proof {
                lemma_read_symbol_congruent(&length_table, &lt, pre);
            }
            let l32 = match self.stream.read_symbol(&length_table) {
                Ok(v) => v,
                Err(e) => {
                    return Err(e);
                },
            };
            if l32 < 0 {
                return Err(ReadError::FormatViolation);
            }
            let array_length = l32 as usize;
            let ghost acc_map = arrays@.map_values(|x: Vec<CorrelationIndex>| x@);
            let mut array: Vec<CorrelationIndex> = Vec::new();
            let mut j: usize = 0;
            while j < array_length
                invariant
                    self.wf(),
                    j <= array_length,
                    array@.len() == j,
                    forall|k: int|
                        0 <= k < array@.len() ==> (#[trigger] array@[k]).index
                            < number_of_correlations,
                    spec_correlation_arrays(
                        s1,
                        lt,
                        number_of_arrays as int,
                        number_of_correlations,
                        Seq::empty(),
                    ) == (match spec_corr_array_items(
                        self.bits(),
                        array_length - j,
                        number_of_correlations,
                        array@,
                    ) {
                        Decoded::Done { value: items, rest: rest2 } => spec_correlation_arrays(
                            rest2,
                            lt,
                            number_of_arrays - i - 1,
                            number_of_correlations,
                            acc_map.push(items),
                        ),
                        Decoded::Fail { err } => Decoded::Fail { err },
                    }),
                decreases array_length - j,
            {
                let ghost pre2 = self.bits();
                let value = match self.stream.read_symbol(&correlation_table) {
                    Ok(v) => v,
                    Err(e) => {
                        return Err(e);
                    },
                };
                proof {
                    lemma_ranged_usize_symbol_bounds(
                        0,
                        (number_of_correlations - 1) as usize,
                        pre2,
                    );
                }
                array.push(CorrelationIndex { index: value });
                j = j + 1;
            }
            arrays.push(array);
            i = i + 1;
            proof {
                assert(arrays@.map_values(|x: Vec<CorrelationIndex>| x@) =~= acc_map.push(
                    arrays@.last()@,
                ));
            }
        }
        Ok(arrays)
    }

    /// Reads the acceptations; each group's correlation-array references
    /// come out strictly increasing and in range.
    #[verifier::loop_isolation(false)]
    #[verifier::rlimit(60)]
    fn read_acceptations(
        &mut self,
        min_valid_concept: usize,
        max_valid_concept: usize,
        correlation_array_count: usize,
    ) -> (r: Result<Vec<Acceptation>, ReadError>)
        requires
            old(self).wf(),
            min_valid_concept == 1,
        ensures
            final(self).wf(),
            match spec_read_acceptations(
                old(self).bits(),
                max_valid_concept,
                correlation_array_count,
            ) {
                Decoded::Done { value, rest } => r matches Ok(v) && v@ == value
                    && final(self).bits() == rest && (forall|i: int|
                    0 <= i < v@.len() ==> 1 <= (#[trigger] v@[i]).concept <= max_valid_concept
                        && v@[i].correlation_array_index.index < correlation_array_count),
                Decoded::Fail { err } => r == Err::<Vec<Acceptation>, ReadError>(err),
            },
    {
        let number_of_entries = match self.stream.read_symbol(&self.natural8_usize_table) {
            Ok(v) => v,
            Err(e) => {
                return Err(e);
            },
        };
        let mut result: Vec<Acceptation> = Vec::new();
        if number_of_entries == 0 {
            return Ok(result);
        }
        if max_valid_concept < 1 {
            return Err(ReadError::InvalidRange);
        }
        if max_valid_concept > 0x80000000 || correlation_array_count > 0x80000000 {
            return Err(ReadError::FormatViolation);
        }
        let reader = I32ElementReader { base: self.integer8_table, diff: self.natural8_table };
        let ghost pre_table = self.bits();
        let correlation_array_set_length_table = match self.stream.read_table(&reader) {
            Ok(t) => t,
            Err(e) => {
                return Err(e);
            },
        };
        let ghost lt = (match spec_read_table(&signed_length_elements(), pre_table) {
            Decoded::Done { value, rest } => value,
            Decoded::Fail { err } => DefinedShape { levels: Seq::empty(), symbols: Seq::empty() },
        });
        let concept_table = RangedNaturalUsizeHuffmanTable::new(
            min_valid_concept,
            max_valid_concept,
        );
        let ghost s1 = self.bits();
        let mut i: usize = 0;
        while i < number_of_entries
            invariant
                self.wf(),
                i <= number_of_entries,
                correlation_array_set_length_table.wf(),
                table_matches_shape(&correlation_array_set_length_table, lt),
                forall|k: int|
                    0 <= k < result@.len() ==> 1 <= (#[trigger] result@[k]).concept
                        <= max_valid_concept && result@[k].correlation_array_index.index
                        < correlation_array_count,
                spec_acceptations(
                    s1,
                    lt,
                    number_of_entries as int,
                    max_valid_concept,
                    correlation_array_count,
                    Seq::empty(),
                ) == spec_acceptations(
                    self.bits(),
                    lt,
                    number_of_entries - i,
                    max_valid_concept,
                    correlation_array_count,
                    result@,
                ),
            decreases number_of_entries - i,
        {
            let ghost pre = self.bits();
            let concept = match self.stream.read_symbol(&concept_table) {
                Ok(v) => v,
                Err(e) => {
                    return Err(e);
                },
            };
            proof {
                lemma_ranged_usize_symbol_bounds(1, max_valid_concept, pre);
            }
            let ghost pre2 = self.bits();
            proof {
                lemma_read_symbol_congruent(&correlation_array_set_length_table, &lt, pre2);
            }
            let l32 = match self.stream.read_symbol(&correlation_array_set_length_table) {
                Ok(v) => v,
                Err(e) => {
                    return Err(e);
                },
            };
            if l32 <= 0 {
                return Err(ReadError::FormatViolation);
            }
            let length = l32 as usize;
            if length > correlation_array_count {
                return Err(ReadError::FormatViolation);
            }
            let symbol_table = RangedNaturalUsizeHuffmanTable::new(
                0,
                correlation_array_count - length,
            );
            let ghost pre3 = self.bits();
            let mut value = match self.stream.read_symbol(&symbol_table) {
                Ok(v) => v,
                Err(e) => {
                    return Err(e);
                },
            };
            proof {
                lemma_ranged_usize_symbol_bounds(
                    0,
                    (correlation_array_count - length) as usize,
                    pre3,
                );
            }
            result.push(
                Acceptation {
                    concept,
                    correlation_array_index: CorrelationArrayIndex { index: value },
                },
            );
            let mut set_entry_index: usize = 1;
            while set_entry_index < length
                invariant
                    self.wf(),
                    1 <= set_entry_index <= length,
                    value <= correlation_array_count - length + set_entry_index - 1,
                    forall|k: int|
                        0 <= k < result@.len() ==> 1 <= (#[trigger] result@[k]).concept
                            <= max_valid_concept && result@[k].correlation_array_index.index
                            < correlation_array_count,
                    spec_acceptations(
                        s1,
                        lt,
                        number_of_entries as int,
                        max_valid_concept,
                        correlation_array_count,
                        Seq::empty(),
                    ) == (match spec_accept_group(
                        self.bits(),
                        concept,
                        correlation_array_count,
                        length as int,
                        set_entry_index as int,
                        value,
                        result@,
                    ) {
                        Decoded::Done { value: acc2, rest: rest4 } => spec_acceptations(
                            rest4,
                            lt,
                            number_of_entries - i - 1,
                            max_valid_concept,
                            correlation_array_count,
                            acc2,
                        ),
                        Decoded::Fail { err } => Decoded::Fail { err },
                    }),
                decreases length - set_entry_index,
            {
                let symbol_diff_table = RangedNaturalUsizeHuffmanTable::new(
                    value + 1,
                    correlation_array_count - length + set_entry_index,
                );
                let ghost pre4 = self.bits();
                let next_value = match self.stream.read_symbol(&symbol_diff_table) {
                    Ok(v) => v,
                    Err(e) => {
                        return Err(e);
                    },
                };
                proof {
                    lemma_ranged_usize_symbol_bounds(
                        (value + 1) as usize,
                        (correlation_array_count - length + set_entry_index) as usize,
                        pre4,
                    );
                }
                value = next_value;
                result.push(
                    Acceptation {
                        concept,
                        correlation_array_index: CorrelationArrayIndex { index: value },
                    },
                );
                set_entry_index = set_entry_index + 1;
            }
            i = i + 1;
        }
        Ok(result)
    }
}

/// Reading a complement set: while the next concept slot is open, one
/// flag bit; a set flag is followed by one complement, strictly above all
/// previous ones.
pub open spec fn spec_complements(
    s: Seq<bool>,
    min_comp: usize,
    c_max: usize,
    acc: Seq<usize>,
) -> Decoded<Seq<usize>>
    decreases s.len(),
    via spec_complements_dec
{
    if min_comp >= c_max {
        Decoded::Done { value: acc, rest: s }
    } else if s.len() == 0 {
        Decoded::Fail { err: ReadError::UnexpectedEndOfFile }
    } else if !s[0] {
        Decoded::Done { value: acc, rest: s.drop_first() }
    } else {
        match spec_read_symbol(&spec_ranged_usize(min_comp, c_max), s.drop_first()) {
            Decoded::Fail { err } => Decoded::Fail { err },
            Decoded::Done { value: comp, rest } => spec_complements(
                rest,
                (comp + 1) as usize,
                c_max,
                acc.push(comp),
            ),
        }
    }
}

#[via_fn]
proof fn spec_complements_dec(s: Seq<bool>, min_comp: usize, c_max: usize, acc: Seq<usize>) {
    if min_comp < c_max && s.len() > 0 && s[0] {
        crate::codec::lemma_read_symbol_consumes(
            &spec_ranged_usize(min_comp, c_max),
            s.drop_first(),
        );
    }
}

/// Reading the remaining concepts of one definition group, each followed
/// by its complement set.
pub open spec fn spec_def_concepts(
    s: Seq<bool>,
    c_max: usize,
    base: usize,
    ml: int,
    i: int,
    prev_c: usize,
    acc: Seq<(usize, DefinitionModel)>,
) -> Decoded<Seq<(usize, DefinitionModel)>>
    decreases ml - i,
{
    if i >= ml {
        Decoded::Done { value: acc, rest: s }
    } else {
        match spec_read_symbol(
            &spec_ranged_usize((prev_c + 1) as usize, (c_max - ml + 1 + i) as usize),
            s,
        ) {
            Decoded::Fail { err } => Decoded::Fail { err },
            Decoded::Done { value: c, rest } => {
                match spec_complements(rest, 1, c_max, Seq::empty()) {
                    Decoded::Fail { err } => Decoded::Fail { err },
                    Decoded::Done { value: comps, rest: rest2 } => spec_def_concepts(
                        rest2,
                        c_max,
                        base,
                        ml,
                        i + 1,
                        c,
                        acc.push((c, DefinitionModel { base_concept: base, complements: comps })),
                    ),
                }
            },
        }
    }
}

/// Reading `n` definition groups. The base concepts are drawn from
/// narrowing ranges that end at the last `n` valid concepts; each group
/// lists the concepts it defines, each with a complement set.
pub open spec fn spec_definitions(
    s: Seq<bool>,
    lt: DefinedShape<u32>,
    n: int,
    min_base: usize,
    c_max: usize,
    acc: Seq<(usize, DefinitionModel)>,
) -> Decoded<Seq<(usize, DefinitionModel)>>
    decreases n,
{
    if n <= 0 {
        Decoded::Done { value: acc, rest: s }
    } else {
        match spec_read_symbol(&spec_ranged_usize(min_base, (c_max - n + 1) as usize), s) {
            Decoded::Fail { err } => Decoded::Fail { err },
            Decoded::Done { value: base, rest } => {
                match spec_read_symbol(&lt, rest) {
                    Decoded::Fail { err } => Decoded::Fail { err },
                    Decoded::Done { value: ml32, rest: rest2 } => {
                        if ml32 == 0 {
                            spec_definitions(rest2, lt, n - 1, (base + 1) as usize, c_max, acc)
                        } else if ml32 as int > c_max as int {
                            Decoded::Fail { err: ReadError::FormatViolation }
                        } else {
                            match spec_read_symbol(
                                &spec_ranged_usize(1, (c_max - ml32 + 1) as usize),
                                rest2,
                            ) {
                                Decoded::Fail { err } => Decoded::Fail { err },
                                Decoded::Done { value: c0, rest: rest3 } => {
                                    match spec_complements(rest3, 1, c_max, Seq::empty()) {
                                        Decoded::Fail { err } => Decoded::Fail { err },
                                        Decoded::Done { value: comps0, rest: rest4 } => {
                                            match spec_def_concepts(
                                                rest4,
                                                c_max,
                                                base,
                                                ml32 as int,
                                                1,
                                                c0,
                                                acc.push(
                                                    (
                                                        c0,
                                                        DefinitionModel {
                                                            base_concept: base,
                                                            complements: comps0,
                                                        },
                                                    ),
                                                ),
                                            ) {
                                                Decoded::Fail { err } => Decoded::Fail { err },
                                                Decoded::Done { value: acc2, rest: rest5 } => spec_definitions(
                                                    rest5,
                                                    lt,
                                                    n - 1,
                                                    (base + 1) as usize,
                                                    c_max,
                                                    acc2,
                                                ),
                                            }
                                        },
                                    }
                                },
                            }
                        }
                    },
                }
            },
        }
    }
}

/// The whole definition stage.
pub open spec fn spec_read_definitions(s: Seq<bool>, c_max: usize) -> Decoded<
    Seq<(usize, DefinitionModel)>,
> {
    match spec_read_symbol(&nat_usize_table(8), s) {
        Decoded::Fail { err } => Decoded::Fail { err },
        Decoded::Done { value: n, rest } => {
            if n == 0 {
                Decoded::Done { value: Seq::empty(), rest }
            } else if n as int > c_max as int {
                Decoded::Fail { err: ReadError::FormatViolation }
            } else if c_max > 0x80000000 {
                Decoded::Fail { err: ReadError::FormatViolation }
            } else {
                match spec_read_table(&concept_map_elements(), rest) {
                    Decoded::Fail { err } => Decoded::Fail { err },
                    Decoded::Done { value: lt, rest: rest2 } => spec_definitions(
                        rest2,
                        lt,
                        n as int,
                        1,
                        c_max,
                        Seq::empty(),
                    ),
                }
            }
        },
    }
}

impl SdbReader {
    /// Reads one complement set; the complements come out strictly
    /// increasing and between 1 and the largest concept.
    #[verifier::loop_isolation(false)]
    fn read_complements(&mut self, min_valid_concept: usize, max_valid_concept: usize) -> (r:
        Result<Vec<usize>, ReadError>)
        requires
            old(self).wf(),
            1 <= min_valid_concept,
            max_valid_concept <= 0x80000000,
        ensures
            final(self).wf(),
            match spec_complements(
                old(self).bits(),
                min_valid_concept,
                max_valid_concept,
                Seq::empty(),
            ) {
                Decoded::Done { value, rest } => r matches Ok(v) && v@ == value
                    && final(self).bits() == rest && (forall|i: int, j: int|
                    0 <= i < j < v@.len() ==> #[trigger] v@[i] < #[trigger] v@[j]) && (forall|
                    i: int,
                |
                    0 <= i < v@.len() ==> min_valid_concept <= #[trigger] v@[i]
                        <= max_valid_concept),
                Decoded::Fail { err } => r == Err::<Vec<usize>, ReadError>(err),
            },
    {
        let mut min_valid_complement = min_valid_concept;
        let mut complements: Vec<usize> = Vec::new();
        loop
            invariant
                self.wf(),
                min_valid_concept <= min_valid_complement,
                forall|i: int, j: int|
                    0 <= i < j < complements@.len() ==> #[trigger] complements@[i]
                        < #[trigger] complements@[j],
                forall|i: int|
                    0 <= i < complements@.len() ==> min_valid_concept <= #[trigger] complements@[i]
                        && complements@[i] < min_valid_complement
                        && complements@[i] <= max_valid_concept,
                spec_complements(
                    old(self).bits(),
                    min_valid_concept,
                    max_valid_concept,
                    Seq::empty(),
                ) == spec_complements(
                    self.bits(),
                    min_valid_complement,
                    max_valid_concept,
                    complements@,
                ),
            decreases self.bits().len(),
        {
            if !(min_valid_complement < max_valid_concept) {
                return Ok(complements);
            }
            let flag = match self.stream.read_boolean() {
                Ok(v) => v,
                Err(e) => {
                    return Err(e);
                },
            };
            if !flag {
                return Ok(complements);
            }
            let complement_table = RangedNaturalUsizeHuffmanTable::new(
                min_valid_complement,
                max_valid_concept,
            );
            let ghost pre = self.bits();
            let complement = match self.stream.read_symbol(&complement_table) {
                Ok(v) => v,
                Err(e) => {
                    return Err(e);
                },
            };
            proof {
                lemma_ranged_usize_symbol_bounds(min_valid_complement, max_valid_concept, pre);
                crate::codec::lemma_read_symbol_consumes(
                    &spec_ranged_usize(min_valid_complement, max_valid_concept),
                    pre,
                );
            }
            min_valid_complement = complement + 1;
            complements.push(complement);
        }
    }

    /// Reads the definitions.
    #[verifier::loop_isolation(false)]
    #[verifier::rlimit(80)]
    fn read_definitions(&mut self, min_valid_concept: usize, max_valid_concept: usize) -> (r:
        Result<Vec<(usize, Definition)>, ReadError>)
        requires
            old(self).wf(),
            min_valid_concept == 1,
        ensures
            final(self).wf(),
            match spec_read_definitions(old(self).bits(), max_valid_concept) {
                Decoded::Done { value, rest } => r matches Ok(v) && v@.map_values(
                    |p: (usize, Definition)| (p.0, definition_view(p.1)),
                ) == value && final(self).bits() == rest && (forall|i: int, a: int, b: int|
                    0 <= i < v@.len() && 0 <= a < b < ((#[trigger] v@[i]).1).complements@.len()
                        ==> #[trigger] v@[i].1.complements@[a] < #[trigger] v@[i].1.complements@[b]),
                Decoded::Fail { err } => r == Err::<Vec<(usize, Definition)>, ReadError>(err),
            },
    {
        proof {
            assert(Seq::<(usize, Definition)>::empty().map_values(
                |p: (usize, Definition)| (p.0, definition_view(p.1)),
            ) =~= Seq::<(usize, DefinitionModel)>::empty());
        }
        let number_of_base_concepts = match self.stream.read_symbol(&self.natural8_usize_table) {
            Ok(v) => v,
            Err(e) => {
                return Err(e);
            },
        };
        let mut definitions: Vec<(usize, Definition)> = Vec::new();
        if number_of_base_concepts == 0 {
            return Ok(definitions);
        }
        if number_of_base_concepts > max_valid_concept {
            return Err(ReadError::FormatViolation);
        }
        if max_valid_concept > 0x80000000 {
            return Err(ReadError::FormatViolation);
        }
        let reader = U32ElementReader { base: self.natural8_table, diff: self.natural8_table };
        let ghost pre_table = self.bits();
        let concept_map_length_table = match self.stream.read_table(&reader) {
            Ok(t) => t,
            Err(e) => {
                return Err(e);
            },
        };
        let ghost lt = (match spec_read_table(&concept_map_elements(), pre_table) {
            Decoded::Done { value, rest } => value,
            Decoded::Fail { err } => DefinedShape { levels: Seq::empty(), symbols: Seq::empty() },
        });
        let ghost s1 = self.bits();
        let mut min_base_concept = min_valid_concept;
        let mut n_left = number_of_base_concepts;
        while n_left > 0
            invariant
                self.wf(),
                n_left <= number_of_base_concepts,
                concept_map_length_table.wf(),
                table_matches_shape(&concept_map_length_table, lt),
                1 <= min_base_concept,
                min_base_concept <= max_valid_concept - n_left + 1,
                forall|i: int, a: int, b: int|
                    0 <= i < definitions@.len() && 0 <= a < b < ((
                    #[trigger] definitions@[i]).1).complements@.len()
                        ==> #[trigger] definitions@[i].1.complements@[a]
                        < #[trigger] definitions@[i].1.complements@[b],
                spec_definitions(s1, lt, number_of_base_concepts as int, 1, max_valid_concept, Seq::empty())
                    == spec_definitions(
                    self.bits(),
                    lt,
                    n_left as int,
                    min_base_concept,
                    max_valid_concept,
                    definitions@.map_values(|p: (usize, Definition)| (p.0, definition_view(p.1))),
                ),
            decreases n_left,
        {
            let max_base_concept = max_valid_concept - n_left + 1;
            let table = RangedNaturalUsizeHuffmanTable::new(min_base_concept, max_base_concept);
            let ghost pre = self.bits();
            let base = match self.stream.read_symbol(&table) {
                Ok(v) => v,
                Err(e) => {
                    return Err(e);
                },
            };
            proof {
                lemma_ranged_usize_symbol_bounds(min_base_concept, max_base_concept, pre);
            }
            min_base_concept = base + 1;
            let ghost pre2 = self.bits();
            proof {
                lemma_read_symbol_congruent(&concept_map_length_table, &lt, pre2);
            }
            let ml32 = match self.stream.read_symbol(&concept_map_length_table) {
                Ok(v) => v,
                Err(e) => {
                    return Err(e);
                },
            };
            if ml32 > 0 {
                if ml32 as usize > max_valid_concept {
                    return Err(ReadError::FormatViolation);
                }
                let map_length = ml32 as usize;
                let concept_table = RangedNaturalUsizeHuffmanTable::new(
                    1,
                    max_valid_concept - map_length + 1,
                );
                let ghost pre3 = self.bits();
                let mut concept = match self.stream.read_symbol(&concept_table) {
                    Ok(v) => v,
                    Err(e) => {
                        return Err(e);
                    },
                };
                proof {
                    lemma_ranged_usize_symbol_bounds(
                        1,
                        (max_valid_concept - map_length + 1) as usize,
                        pre3,
                    );
                }
                let comps = match self.read_complements(1, max_valid_concept) {
                    Ok(v) => v,
                    Err(e) => {
                        return Err(e);
                    },
                };
                let ghost acc_map = definitions@.map_values(
                    |p: (usize, Definition)| (p.0, definition_view(p.1)),
                );
                definitions.push((concept, Definition { base_concept: base, complements: comps }));
                proof {
                    assert(definitions@.map_values(
                        |p: (usize, Definition)| (p.0, definition_view(p.1)),
                    ) =~= acc_map.push(
                        (concept, definition_view(definitions@.last().1)),
                    ));
                }
                let mut map_index: usize = 1;
                while map_index < map_length
                    invariant
                        self.wf(),
                        1 <= map_index <= map_length,
                        concept <= max_valid_concept - map_length + map_index,
                        forall|i: int, a: int, b: int|
                            0 <= i < definitions@.len() && 0 <= a < b < ((
                            #[trigger] definitions@[i]).1).complements@.len()
                                ==> #[trigger] definitions@[i].1.complements@[a]
                                < #[trigger] definitions@[i].1.complements@[b],
                        spec_definitions(
                            s1,
                            lt,
                            number_of_base_concepts as int,
                            1,
                            max_valid_concept,
                            Seq::empty(),
                        ) == (match spec_def_concepts(
                            self.bits(),
                            max_valid_concept,
                            base,
                            map_length as int,
                            map_index as int,
                            concept,
                            definitions@.map_values(
                                |p: (usize, Definition)| (p.0, definition_view(p.1)),
                            ),
                        ) {
                            Decoded::Done { value: acc2, rest: rest5 } => spec_definitions(
                                rest5,
                                lt,
                                n_left - 1,
                                (base + 1) as usize,
                                max_valid_concept,
                                acc2,
                            ),
                            Decoded::Fail { err } => Decoded::Fail { err },
                        }),
                    decreases map_length - map_index,
                {
                    let inner_concept_table = RangedNaturalUsizeHuffmanTable::new(
                        concept + 1,
                        max_valid_concept - map_length + 1 + map_index,
                    );
                    let ghost pre4 = self.bits();
                    let next_concept = match self.stream.read_symbol(&inner_concept_table) {
                        Ok(v) => v,
                        Err(e) => {
                            return Err(e);
                        },
                    };
                    proof {
                        lemma_ranged_usize_symbol_bounds(
                            (concept + 1) as usize,
                            (max_valid_concept - map_length + 1 + map_index) as usize,
                            pre4,
                        );
                    }
                    concept = next_concept;
                    let inner_comps = match self.read_complements(1, max_valid_concept) {
                        Ok(v) => v,
                        Err(e) => {
                            return Err(e);
                        },
                    };
                    let ghost acc_map2 = definitions@.map_values(
                        |p: (usize, Definition)| (p.0, definition_view(p.1)),
                    );
                    definitions.push(
                        (concept, Definition { base_concept: base, complements: inner_comps }),
                    );
                    proof {
                        assert(definitions@.map_values(
                            |p: (usize, Definition)| (p.0, definition_view(p.1)),
                        ) =~= acc_map2.push(
                            (concept, definition_view(definitions@.last().1)),
                        ));
                    }
                    map_index = map_index + 1;
                }
            }
            n_left = n_left - 1;
        }
        Ok(definitions)
    }
}

/// The total number of alphabets of the first `upto` languages.
pub open spec fn alphabet_sum(langs: Seq<Language>, upto: int) -> int
    decreases upto,
{
    if upto <= 0 {
        0
    } else {
        alphabet_sum(langs, upto - 1) + langs[upto - 1].number_of_alphabets
    }
}

pub proof fn lemma_alphabet_sum_mono(langs: Seq<Language>, i: int, j: int)
    requires
        i <= j,
    ensures
        alphabet_sum(langs, i) <= alphabet_sum(langs, j),
    decreases j - i,
{
    if i < j {
        lemma_alphabet_sum_mono(langs, i, j - 1);
    }
}

pub proof fn lemma_alphabet_sum_nonneg(langs: Seq<Language>, upto: int)
    ensures
        alphabet_sum(langs, upto) >= 0,
    decreases upto,
{
    if upto > 0 {
        lemma_alphabet_sum_nonneg(langs, upto - 1);
    }
}

/// The whole decode after the preamble: every stage in its fixed order,
/// each later stage bounded by what the earlier ones produced.
pub open spec fn spec_read_stages(s: Seq<bool>) -> Decoded<SdbModel> {
    match spec_read_symbol(&nat_usize_table(8), s) {
        Decoded::Fail { err } => Decoded::Fail { err },
        Decoded::Done { value: n_sa, rest: s1 } => match spec_read_table(&char_elements(), s1) {
            Decoded::Fail { err } => Decoded::Fail { err },
            Decoded::Done { value: ct, rest: s2 } => match spec_read_table(
                &length_elements(),
                s2,
            ) {
                Decoded::Fail { err } => Decoded::Fail { err },
                Decoded::Done { value: lt, rest: s3 } => match spec_symbol_arrays(
                    lt,
                    ct,
                    s3,
                    n_sa as int,
                    Seq::empty(),
                ) {
                    Decoded::Fail { err } => Decoded::Fail { err },
                    Decoded::Done { value: arrays, rest: s4 } => match spec_read_languages(s4) {
                        Decoded::Fail { err } => Decoded::Fail { err },
                        Decoded::Done { value: langs, rest: s5 } => {
                            if n_sa == 0 {
                                Decoded::Fail { err: ReadError::NotImplemented }
                            } else if alphabet_sum(langs, langs.len() as int) > usize::MAX {
                                Decoded::Fail { err: ReadError::FormatViolation }
                            } else {
                                let a_count = alphabet_sum(langs, langs.len() as int) as usize;
                                match spec_read_conversions(s5, a_count, n_sa) {
                                    Decoded::Fail { err } => Decoded::Fail { err },
                                    Decoded::Done { value: convs, rest: s6 } => match spec_read_symbol(
                                        &nat_usize_table(8),
                                        s6,
                                    ) {
                                        Decoded::Fail { err } => Decoded::Fail { err },
                                        Decoded::Done { value: c_max, rest: s7 } => match spec_read_correlations(
                                            s7,
                                            a_count,
                                            n_sa,
                                        ) {
                                            Decoded::Fail { err } => Decoded::Fail { err },
                                            Decoded::Done { value: corrs, rest: s8 } => match spec_read_correlation_arrays(
                                                s8,
                                                corrs.len() as usize,
                                            ) {
                                                Decoded::Fail { err } => Decoded::Fail { err },
                                                Decoded::Done { value: cas, rest: s9 } => match spec_read_acceptations(
                                                    s9,
                                                    c_max,
                                                    cas.len() as usize,
                                                ) {
                                                    Decoded::Fail { err } => Decoded::Fail { err },
                                                    Decoded::Done { value: accs, rest: s10 } => match spec_read_definitions(
                                                        s10,
                                                        c_max,
                                                    ) {
                                                        Decoded::Fail { err } => Decoded::Fail {
                                                            err,
                                                        },
                                                        Decoded::Done {
                                                            value: defs,
                                                            rest: s11,
                                                        } => Decoded::Done {
                                                            value: SdbModel {
                                                                symbol_arrays: arrays,
                                                                languages: langs,
                                                                conversions: convs,
                                                                max_concept: c_max,
                                                                correlations: corrs,
                                                                correlation_arrays: cas,
                                                                acceptations: accs,
                                                                definitions: defs,
                                                            },
                                                            rest: s11,
                                                        },
                                                    },
                                                },
                                            },
                                        },
                                    },
                                }
                            }
                        },
                    },
                },
            },
        },
    }
}

impl SdbReadResult {
    /// Every correlation-array entry names an existing correlation, and
    /// every correlation value an existing symbol array.
    pub open spec fn wf(&self) -> bool {
        &&& forall|i: int, j: int|
            0 <= i < self.correlation_arrays@.len() && 0 <= j < (
            #[trigger] self.correlation_arrays@[i])@.len() ==> (
            #[trigger] self.correlation_arrays@[i]@[j]).index < self.correlations@.len()
        &&& forall|i: int, j: int|
            0 <= i < self.correlations@.len() && 0 <= j < (#[trigger] self.correlations@[i])@.len()
                ==> (#[trigger] self.correlations@[i]@[j]).1.index < self.symbol_arrays@.len()
    }
}

impl SdbReader {
    /// Decodes the whole database, consuming the reader. The result is
    /// exactly what the spec-level decoder says the bits hold.
    #[verifier::loop_isolation(false)]
    pub fn read(self) -> (r: Result<SdbReadResult, ReadError>)
        requires
            self.wf(),
        ensures
            match spec_read_stages(self.bits()) {
                Decoded::Done { value, rest } => r matches Ok(res) && result_view(&res) == value
                    && res.wf(),
                Decoded::Fail { err } => r == Err::<SdbReadResult, ReadError>(err),
            },
    {
        let mut reader = self;
        let symbol_array_count = match reader.stream.read_symbol(&reader.natural8_usize_table) {
            Ok(v) => v,
            Err(e) => {
                return Err(e);
            },
        };
        let char_reader = CharElementReader {
            base: reader.natural8_table,
            diff: reader.natural4_table,
        };
        let ghost pre_chars = reader.bits();
        let chars_table = match reader.stream.read_table(&char_reader) {
            Ok(t) => t,
            Err(e) => {
                return Err(e);
            },
        };
        let ghost ct = (match spec_read_table(&char_elements(), pre_chars) {
            Decoded::Done { value, rest } => value,
            Decoded::Fail { err } => DefinedShape { levels: Seq::empty(), symbols: Seq::empty() },
        });
        let length_reader = U32ElementReader {
            base: reader.natural8_table,
            diff: reader.natural3_table,
        };
        let ghost pre_lengths = reader.bits();
        let symbol_arrays_length_table = match reader.stream.read_table(&length_reader) {
            Ok(t) => t,
            Err(e) => {
                return Err(e);
            },
        };
        let ghost lt = (match spec_read_table(&length_elements(), pre_lengths) {
            Decoded::Done { value, rest } => value,
            Decoded::Fail { err } => DefinedShape { levels: Seq::empty(), symbols: Seq::empty() },
        });
        let symbol_arrays = match reader.read_symbol_arrays(
            symbol_array_count,
            &symbol_arrays_length_table,
            &chars_table,
            Ghost(lt),
            Ghost(ct),
        ) {
            Ok(v) => v,
            Err(e) => {
                return Err(e);
            },
        };
        let languages = match reader.read_languages() {
            Ok(v) => v,
            Err(e) => {
                return Err(e);
            },
        };
        if symbol_array_count == 0 {
            return Err(ReadError::NotImplemented);
        }
        let mut alphabet_count: usize = 0;
        let mut li: usize = 0;
        proof {
            lemma_alphabet_sum_nonneg(languages@, languages@.len() as int);
        }
        while li < languages.len()
            invariant
                li <= languages@.len(),
                alphabet_count == alphabet_sum(languages@, li as int),
            decreases languages@.len() - li,
        {
            let n_alpha = languages[li].number_of_alphabets;
            if n_alpha > usize::MAX - alphabet_count {
                proof {
                    assert(alphabet_sum(languages@, li as int + 1) == alphabet_sum(
                        languages@,
                        li as int,
                    ) + n_alpha);
                    lemma_alphabet_sum_mono(languages@, li as int + 1, languages@.len() as int);
                }
                return Err(ReadError::FormatViolation);
            }
            alphabet_count = alphabet_count + n_alpha;
            li = li + 1;
        }
        let conversions = match reader.read_conversions(alphabet_count, symbol_array_count) {
            Ok(v) => v,
            Err(e) => {
                return Err(e);
            },
        };
        let max_concept = match reader.stream.read_symbol(&reader.natural8_usize_table) {
            Ok(v) => v,
            Err(e) => {
                return Err(e);
            },
        };
        let correlations = match reader.read_correlations(alphabet_count, symbol_array_count) {
            Ok(v) => v,
            Err(e) => {
                return Err(e);
            },
        };
        let correlation_arrays = match reader.read_correlation_arrays(correlations.len()) {
            Ok(v) => v,
            Err(e) => {
                return Err(e);
            },
        };
        let acceptations = match reader.read_acceptations(1, max_concept, correlation_arrays.len())
        {
            Ok(v) => v,
            Err(e) => {
                return Err(e);
            },
        };
        let definitions = match reader.read_definitions(1, max_concept) {
            Ok(v) => v,
            Err(e) => {
                return Err(e);
            },
        };
        Ok(
            SdbReadResult {
                symbol_arrays,
                languages,
                conversions,
                max_concept,
                correlations,
                correlation_arrays,
                acceptations,
                definitions,
            },
        )
    }
}

/// The four magic bytes that open every stream.
pub open spec fn magic_bytes() -> Seq<u8> {
    seq![0x53u8, 0x44u8, 0x42u8, 0x01u8]
}

/// Decoding a whole byte buffer: the preamble as raw bytes, then the
/// staged bit-level decode.
pub open spec fn spec_decode_sdb(data: Seq<u8>) -> Decoded<SdbModel> {
    match spec_match_bytes(data, 0, magic_bytes()) {
        Err(e) => Decoded::Fail { err: e },
        Ok(p) => spec_read_stages(bytes_bits(data.skip(p))),
    }
}

/// Decodes a database from an in-memory byte buffer: checks the preamble,
/// then reads every stage of the schema.
pub fn decode_sdb(data: Vec<u8>) -> (r: Result<SdbReadResult, ReadError>)
    ensures
        match spec_decode_sdb(data@) {
            Decoded::Done { value, rest } => r matches Ok(res) && result_view(&res) == value
                && res.wf(),
            Decoded::Fail { err } => r == Err::<SdbReadResult, ReadError>(err),
        },
{
    let ghost bytes = data@;
    let mut stream = InputBitStream::new(data);
    let magic: Vec<u8> = vec![0x53u8, 0x44u8, 0x42u8, 0x01u8];
    proof {
        assert(magic@ =~= magic_bytes());
    }
    match assert_next_is_same_text(&mut stream, magic.as_slice()) {
        Err(e) => Err(e),
        Ok(_) => {
            proof {
                crate::file_utils::lemma_match_bytes_pos(bytes, 0, magic_bytes());
                crate::bits::lemma_aligned_bits(&stream);
            }
            SdbReader::new(stream).read()
        },
    }
}

/// Index of the first entry with the given key, or -1.
pub open spec fn key_index(acc: Seq<(Alphabet, Seq<char>)>, key: Alphabet, i: int) -> int
    decreases acc.len() - i,
{
    if i < 0 || i >= acc.len() {
        -1
    } else if acc[i].0 == key {
        i
    } else {
        key_index(acc, key, i + 1)
    }
}

pub proof fn lemma_key_index_props(acc: Seq<(Alphabet, Seq<char>)>, key: Alphabet, i: int)
    requires
        0 <= i <= acc.len(),
    ensures
        ({
            let k = key_index(acc, key, i);
            k == -1 || (i <= k < acc.len() && acc[k].0 == key)
        }),
    decreases acc.len() - i,
{
    if i < acc.len() && acc[i].0 != key {
        lemma_key_index_props(acc, key, i + 1);
    }
}

/// Appending, for each entry of a correlation from `j` on, the entry's
/// symbol-array string to the accumulator at the entry's key. A key
/// absent from the accumulator leaves the result undefined by the
/// format, reported as `None`.
pub open spec fn spec_append_entries(
    acc: Seq<(Alphabet, Seq<char>)>,
    entries: Seq<(Alphabet, SymbolArrayIndex)>,
    arrays: Seq<Seq<char>>,
    j: int,
) -> Option<Seq<(Alphabet, Seq<char>)>>
    decreases entries.len() - j,
{
    if j < 0 || j >= entries.len() {
        Some(acc)
    } else {
        let k = key_index(acc, entries[j].0, 0);
        if k < 0 {
            None
        } else {
            spec_append_entries(
                acc.update(k, (acc[k].0, acc[k].1 + arrays[entries[j].1.index as int])),
                entries,
                arrays,
                j + 1,
            )
        }
    }
}

/// Folding the correlations of one array, from position `i` on, into the
/// accumulator.
pub open spec fn spec_complete_loop(
    r: &SdbReadResult,
    arr: Seq<CorrelationIndex>,
    i: int,
    acc: Seq<(Alphabet, Seq<char>)>,
) -> Option<Seq<(Alphabet, Seq<char>)>>
    decreases arr.len() - i,
{
    if i < 0 || i >= arr.len() {
        Some(acc)
    } else {
        match spec_append_entries(
            acc,
            r.correlations@[arr[i].index as int]@,
            r.symbol_arrays@.map_values(|v: Vec<char>| v@),
            0,
        ) {
            None => None,
            Some(acc2) => spec_complete_loop(r, arr, i + 1, acc2),
        }
    }
}

/// The per-alphabet concatenated strings of one correlation array: the
/// first referenced correlation starts the map, and every later one
/// appends each of its strings at its key.
pub open spec fn spec_complete_correlation(r: &SdbReadResult, index: int) -> Option<
    Seq<(Alphabet, Seq<char>)>,
> {
    let arr = r.correlation_arrays@[index]@;
    if arr.len() == 0 {
        Some(Seq::empty())
    } else {
        let init = r.correlations@[arr[0].index as int]@.map_values(
            |p: (Alphabet, SymbolArrayIndex)| (p.0, r.symbol_arrays@[p.1.index as int]@),
        );
        spec_complete_loop(r, arr, 1, init)
    }
}

/// Makes a fresh copy of a character vector.
fn copy_chars(v: &Vec<char>) -> (r: Vec<char>)
    ensures
        r@ == v@,
{
    let mut r: Vec<char> = Vec::new();
    let mut i: usize = 0;
    while i < v.len()
        invariant
            i <= v@.len(),
            r@ == v@.take(i as int),
        decreases v@.len() - i,
    {
        r.push(v[i]);
        proof {
            assert(v@.take(i + 1) =~= v@.take(i as int).push(v@[i as int]));
        }
        i = i + 1;
    }
    proof {
        assert(v@.take(v@.len() as int) =~= v@);
    }
    r
}

/// Appends the characters of `tail` to a copy of `head`.
fn concat_chars(head: &Vec<char>, tail: &Vec<char>) -> (r: Vec<char>)
    ensures
        r@ == head@ + tail@,
{
    let mut r = copy_chars(head);
    let mut i: usize = 0;
    while i < tail.len()
        invariant
            i <= tail@.len(),
            r@ == head@ + tail@.take(i as int),
        decreases tail@.len() - i,
    {
        r.push(tail[i]);
        proof {
            assert(head@ + tail@.take(i + 1) =~= (head@ + tail@.take(i as int)).push(
                tail@[i as int],
            ));
        }
        i = i + 1;
    }
    proof {
        assert(tail@.take(tail@.len() as int) =~= tail@);
    }
    r
}

/// Finds the position of a key in the accumulator.
#[verifier::loop_isolation(false)]
fn position_of_key(result: &Vec<(Alphabet, Vec<char>)>, key: Alphabet) -> (r: Option<usize>)
    ensures
        ({
            let m = result@.map_values(|p: (Alphabet, Vec<char>)| (p.0, p.1@));
            let k = key_index(m, key, 0);
            match r {
                Some(p) => k == p as int && (p as int) < result@.len() && result@[p as int].0
                    == key,
                None => k == -1,
            }
        }),
{
    let ghost m = result@.map_values(|p: (Alphabet, Vec<char>)| (p.0, p.1@));
    let mut i: usize = 0;
    while i < result.len()
        invariant
            i <= result@.len(),
            key_index(m, key, 0) == key_index(m, key, i as int),
        decreases result@.len() - i,
    {
        proof {
            assert(m[i as int] == (result@[i as int].0, result@[i as int].1@));
        }
        if result[i].0.index == key.index {
            proof {
                assert(result@[i as int].0 == key);
            }
            return Some(i);
        }
        proof {
            assert(result@[i as int].0 != key);
        }
        i = i + 1;
    }
    None
}

impl SdbReadResult {
    /// The per-alphabet concatenated strings of the given correlation
    /// array. A later correlation whose key is absent from the first one
    /// is structurally invalid and reported as an error rather than a
    /// crash.
    #[verifier::loop_isolation(false)]
    #[verifier::rlimit(60)]
    pub fn get_complete_correlation(&self, correlation_array_index: CorrelationArrayIndex) -> (r:
        Result<Vec<(Alphabet, Vec<char>)>, ReadError>)
        requires
            self.wf(),
            correlation_array_index.index < self.correlation_arrays@.len(),
        ensures
            match spec_complete_correlation(self, correlation_array_index.index as int) {
                Some(v) => r matches Ok(m) && m@.map_values(
                    |p: (Alphabet, Vec<char>)| (p.0, p.1@),
                ) == v,
                None => r == Err::<Vec<(Alphabet, Vec<char>)>, ReadError>(
                    ReadError::FormatViolation,
                ),
            },
    {
        let ghost arrays_map = self.symbol_arrays@.map_values(|v: Vec<char>| v@);
        let array_length = self.correlation_arrays[correlation_array_index.index].len();
        let ghost arr = self.correlation_arrays@[correlation_array_index.index as int]@;
        let mut result: Vec<(Alphabet, Vec<char>)> = Vec::new();
        if array_length == 0 {
            proof {
                assert(result@.map_values(|p: (Alphabet, Vec<char>)| (p.0, p.1@)) =~= Seq::<
                    (Alphabet, Seq<char>),
                >::empty());
            }
            return Ok(result);
        }
        let first_ci = self.correlation_arrays[correlation_array_index.index][0].index;
        let ghost init = self.correlations@[arr[0].index as int]@.map_values(
            |p: (Alphabet, SymbolArrayIndex)| (p.0, self.symbol_arrays@[p.1.index as int]@),
        );
        let first_len = self.correlations[first_ci].len();
        let mut t: usize = 0;
        while t < first_len
            invariant
                t <= self.correlations@[first_ci as int]@.len(),
                result@.len() == t,
                result@.map_values(|p: (Alphabet, Vec<char>)| (p.0, p.1@)) =~= init.take(t as int),
            decreases first_len - t,
        {
            let ghost pre_map = result@.map_values(|p: (Alphabet, Vec<char>)| (p.0, p.1@));
            let key = self.correlations[first_ci][t].0;
            let value_index = self.correlations[first_ci][t].1.index;
            let text = copy_chars(&self.symbol_arrays[value_index]);
            result.push((key, text));
            proof {
                assert(result@.map_values(|p: (Alphabet, Vec<char>)| (p.0, p.1@)) =~= pre_map.push(
                    (key, text@),
                ));
                assert(init.take(t + 1) =~= init.take(t as int).push(init[t as int]));
            }
            t = t + 1;
        }
        proof {
            assert(init.take(init.len() as int) =~= init);
        }
        let mut ai: usize = 1;
        while ai < array_length
            invariant
                1 <= ai <= arr.len(),
                spec_complete_loop(self, arr, 1, init) == spec_complete_loop(
                    self,
                    arr,
                    ai as int,
                    result@.map_values(|p: (Alphabet, Vec<char>)| (p.0, p.1@)),
                ),
            decreases arr.len() - ai,
        {
            let ci = self.correlation_arrays[correlation_array_index.index][ai].index;
            let ghost entries = self.correlations@[ci as int]@;
            let corr_len = self.correlations[ci].len();
            let mut j: usize = 0;
            while j < corr_len
                invariant
                    j <= entries.len(),
                    spec_complete_loop(self, arr, 1, init) == (match spec_append_entries(
                        result@.map_values(|p: (Alphabet, Vec<char>)| (p.0, p.1@)),
                        entries,
                        arrays_map,
                        j as int,
                    ) {
                        None => None,
                        Some(acc2) => spec_complete_loop(self, arr, ai + 1, acc2),
                    }),
                decreases entries.len() - j,
            {
                let ghost cur_map = result@.map_values(|p: (Alphabet, Vec<char>)| (p.0, p.1@));
                let key = self.correlations[ci][j].0;
                let value_index = self.correlations[ci][j].1.index;
                match position_of_key(&result, key) {
                    None => {
                        return Err(ReadError::FormatViolation);
                    },
                    Some(k) => {
                        proof {
                            lemma_key_index_props(cur_map, key, 0);
                        }
                        let appended = concat_chars(&result[k].1, &self.symbol_arrays[value_index]);
                        let kept_key = result[k].0;
                        result[k] = (kept_key, appended);
                        proof {
                            assert(result@.map_values(|p: (Alphabet, Vec<char>)| (p.0, p.1@))
                                =~= cur_map.update(
                                k as int,
                                (cur_map[k as int].0, cur_map[k as int].1 + arrays_map[
                                    entries[j as int].1.index as int]),
                            ));
                        }
                    },
                }
                j = j + 1;
            }
            ai = ai + 1;
        }
        Ok(result)
    }
}

/// Law: the correlation-array references one acceptation group appends
/// are strictly increasing, all above `prev`, all below the array count,
/// and all bound to the group's concept; the rows before the group are
/// left as they were.
pub proof fn lemma_accept_group_strictly_increasing(
    s: Seq<bool>,
    concept: usize,
    ca_count: usize,
    length: int,
    i: int,
    prev: usize,
    acc: Seq<Acceptation>,
)
    requires
        1 <= i <= length,
        length <= ca_count as int,
        ca_count <= 0x80000000,
        prev as int <= ca_count - length + i - 1,
    ensures
        match spec_accept_group(s, concept, ca_count, length, i, prev, acc) {
            Decoded::Done { value: v, rest } => {
                &&& v.len() >= acc.len()
                &&& v.take(acc.len() as int) == acc
                &&& forall|j: int|
                    acc.len() <= j < v.len() ==> (#[trigger] v[j]).concept == concept
                &&& forall|j: int|
                    acc.len() <= j < v.len() ==> (prev as int) < (
                    #[trigger] v[j]).correlation_array_index.index < ca_count
                &&& forall|j: int|
                    acc.len() <= j < v.len() - 1 ==> (
                    #[trigger] v[j]).correlation_array_index.index < v[j
                        + 1].correlation_array_index.index
            },
            Decoded::Fail { .. } => true,
        },
    decreases length - i,
{
    if i >= length {
        match spec_accept_group(s, concept, ca_count, length, i, prev, acc) {
            Decoded::Done { value: v, rest } => {
                assert(v.take(acc.len() as int) =~= acc);
            },
            Decoded::Fail { .. } => {},
        }
    } else {
        lemma_ranged_usize_symbol_bounds(
            (prev + 1) as usize,
            (ca_count - length + i) as usize,
            s,
        );
        match spec_read_symbol(
            &spec_ranged_usize((prev + 1) as usize, (ca_count - length + i) as usize),
            s,
        ) {
            Decoded::Fail { err } => {},
            Decoded::Done { value, rest } => {
                let row = Acceptation {
                    concept,
                    correlation_array_index: CorrelationArrayIndex { index: value },
                };
                lemma_accept_group_strictly_increasing(
                    rest,
                    concept,
                    ca_count,
                    length,
                    i + 1,
                    value,
                    acc.push(row),
                );
                match spec_accept_group(rest, concept, ca_count, length, i + 1, value, acc.push(row)) {
                    Decoded::Fail { err } => {},
                    Decoded::Done { value: v, rest: r2 } => {
                        assert(v.take(acc.push(row).len() as int) == acc.push(row));
                        assert(v.take(acc.len() as int) =~= acc) by {
                            assert(forall|j: int|
                                0 <= j < acc.len() ==> v.take(acc.push(row).len() as int)[j]
                                    == #[trigger] v[j]);
                        }
                        assert(v[acc.len() as int] == acc.push(row)[acc.len() as int]);
                    },
                }
            },
        }
    }
}

/// Law: the language codes come out strictly ascending, all inside the
/// two-letter code space and none below the running lower bound.
pub proof fn lemma_languages_strictly_ascending(
    s: Seq<bool>,
    n: int,
    first_valid: u32,
    acc: Seq<Language>,
)
    ensures
        match spec_languages(s, n, first_valid, acc) {
            Decoded::Done { value: v, rest } => {
                &&& v.len() >= acc.len()
                &&& v.take(acc.len() as int) == acc
                &&& forall|j: int|
                    acc.len() <= j < v.len() ==> first_valid <= (#[trigger] v[j]).code.code < 676
                &&& forall|j: int|
                    acc.len() <= j < v.len() - 1 ==> (#[trigger] v[j]).code.code < v[j
                        + 1].code.code
            },
            Decoded::Fail { .. } => true,
        },
    decreases n,
{
    if n <= 0 {
        match spec_languages(s, n, first_valid, acc) {
            Decoded::Done { value: v, rest } => {
                assert(v.take(acc.len() as int) =~= acc);
            },
            Decoded::Fail { .. } => {},
        }
    } else if first_valid > 675 {
    } else {
        crate::codec::lemma_ranged_symbol_bounds(first_valid, 675, s);
        match spec_read_symbol(&spec_ranged(first_valid, 675), s) {
            Decoded::Fail { err } => {},
            Decoded::Done { value: code, rest } => {
                match spec_read_symbol(&nat_usize_table(2), rest) {
                    Decoded::Fail { err } => {},
                    Decoded::Done { value: nalph, rest: rest2 } => {
                        let row = Language {
                            code: LanguageCode { code: code as u16 },
                            number_of_alphabets: nalph,
                        };
                        lemma_languages_strictly_ascending(
                            rest2,
                            n - 1,
                            (code + 1) as u32,
                            acc.push(row),
                        );
                        match spec_languages(rest2, n - 1, (code + 1) as u32, acc.push(row)) {
                            Decoded::Fail { err } => {},
                            Decoded::Done { value: v, rest: r2 } => {
                                assert(v.take(acc.push(row).len() as int) == acc.push(row));
                                assert(v.take(acc.len() as int) =~= acc) by {
                                    assert(forall|j: int|
                                        0 <= j < acc.len() ==> v.take(
                                            acc.push(row).len() as int,
                                        )[j] == #[trigger] v[j]);
                                }
                                assert(v[acc.len() as int] == acc.push(row)[acc.len() as int]);
                            },
                        }
                    },
                }
            },
        }
    }
}

/// Law: the keys appended to one correlation are strictly increasing,
/// all above `prev` and below the alphabet count.
pub proof fn lemma_correlation_keys_strictly_increasing(
    s: Seq<bool>,
    a_count: usize,
    sa_count: usize,
    ml: int,
    i: int,
    prev: usize,
    acc: Seq<(Alphabet, SymbolArrayIndex)>,
)
    requires
        1 <= i <= ml,
        ml < a_count as int,
        a_count <= 0x80000000,
        sa_count >= 1,
        sa_count <= 0x80000000,
        (prev as int) <= a_count - ml + i - 1,
    ensures
        match spec_correlation_entries(s, a_count, sa_count, ml, i, prev, acc) {
            Decoded::Done { value: v, rest } => {
                &&& v.len() >= acc.len()
                &&& v.take(acc.len() as int) == acc
                &&& forall|j: int|
                    acc.len() <= j < v.len() ==> (prev as int) < (#[trigger] v[j]).0.index
                        < a_count
                &&& forall|j: int|
                    acc.len() <= j < v.len() ==> (#[trigger] v[j]).1.index < sa_count
                &&& forall|j: int|
                    acc.len() <= j < v.len() - 1 ==> (#[trigger] v[j]).0.index < v[j + 1].0.index
            },
            Decoded::Fail { .. } => true,
        },
    decreases ml - i,
{
    if i >= ml {
        match spec_correlation_entries(s, a_count, sa_count, ml, i, prev, acc) {
            Decoded::Done { value: v, rest } => {
                assert(v.take(acc.len() as int) =~= acc);
            },
            Decoded::Fail { .. } => {},
        }
    } else {
        lemma_ranged_usize_symbol_bounds((prev + 1) as usize, (a_count - ml + i) as usize, s);
        match spec_read_symbol(
            &spec_ranged_usize((prev + 1) as usize, (a_count - ml + i) as usize),
            s,
        ) {
            Decoded::Fail { err } => {},
            Decoded::Done { value: k, rest } => {
                lemma_ranged_usize_symbol_bounds(0, (sa_count - 1) as usize, rest);
                match spec_read_symbol(&spec_ranged_usize(0, (sa_count - 1) as usize), rest) {
                    Decoded::Fail { err } => {},
                    Decoded::Done { value: vv, rest: rest2 } => {
                        let row = (Alphabet { index: k }, SymbolArrayIndex { index: vv });
                        lemma_correlation_keys_strictly_increasing(
                            rest2,
                            a_count,
                            sa_count,
                            ml,
                            i + 1,
                            k,
                            acc.push(row),
                        );
                        match spec_correlation_entries(
                            rest2,
                            a_count,
                            sa_count,
                            ml,
                            i + 1,
                            k,
                            acc.push(row),
                        ) {
                            Decoded::Fail { err } => {},
                            Decoded::Done { value: v, rest: r2 } => {
                                assert(v.take(acc.push(row).len() as int) == acc.push(row));
                                assert(v.take(acc.len() as int) =~= acc) by {
                                    assert(forall|j: int|
                                        0 <= j < acc.len() ==> v.take(
                                            acc.push(row).len() as int,
                                        )[j] == #[trigger] v[j]);
                                }
                                assert(v[acc.len() as int] == acc.push(row)[acc.len() as int]);
                            },
                        }
                    },
                }
            },
        }
    }
}

/// True when the conversion sits at or past the floor `(min_src, min_tgt)`
/// in the lexicographic order on (source, target).
pub open spec fn conversion_at_or_past(c: ConversionModel, min_src: usize, min_tgt: usize) -> bool {
    c.source.index > min_src || (c.source.index == min_src && c.target.index >= min_tgt)
}

/// Law: the conversions come out in strictly increasing lexicographic
/// order of (source, target), each at or past the running floor.
#[verifier::rlimit(80)]
pub proof fn lemma_conversions_lex_ordered(
    s: Seq<bool>,
    n: int,
    a_count: usize,
    sa_count: usize,
    min_src: usize,
    min_tgt: usize,
    acc: Seq<ConversionModel>,
)
    requires
        1 <= sa_count <= 0x80000000,
        min_src < a_count || min_src == 0,
    ensures
        match spec_conversions(s, n, a_count, sa_count, min_src, min_tgt, acc) {
            Decoded::Done { value: v, rest } => {
                &&& v.len() >= acc.len()
                &&& v.take(acc.len() as int) == acc
                &&& forall|j: int|
                    acc.len() <= j < v.len() ==> conversion_at_or_past(
                        #[trigger] v[j],
                        min_src,
                        min_tgt,
                    ) && v[j].source.index < a_count && v[j].target.index < a_count
                &&& forall|j: int|
                    acc.len() <= j < v.len() - 1 ==> conversion_lex_before(
                        #[trigger] v[j],
                        v[j + 1],
                    )
            },
            Decoded::Fail { .. } => true,
        },
    decreases n,
{
    if n <= 0 || a_count == 0 || a_count > 0x80000000 {
        match spec_conversions(s, n, a_count, sa_count, min_src, min_tgt, acc) {
            Decoded::Done { value: v, rest } => {
                assert(v.take(acc.len() as int) =~= acc);
            },
            Decoded::Fail { .. } => {},
        }
    } else {
        lemma_ranged_usize_symbol_bounds(min_src, (a_count - 1) as usize, s);
        match spec_read_symbol(&spec_ranged_usize(min_src, (a_count - 1) as usize), s) {
            Decoded::Fail { err } => {},
            Decoded::Done { value: src, rest } => {
                let tgt_min: usize = if src != min_src {
                    0
                } else {
                    min_tgt
                };
                if tgt_min <= a_count - 1 {
                    lemma_ranged_usize_symbol_bounds(tgt_min, (a_count - 1) as usize, rest);
                    match spec_read_symbol(
                        &spec_ranged_usize(tgt_min, (a_count - 1) as usize),
                        rest,
                    ) {
                        Decoded::Fail { err } => {},
                        Decoded::Done { value: tgt, rest: rest2 } => {
                            match spec_read_symbol(&nat_usize_table(8), rest2) {
                                Decoded::Fail { err } => {},
                                Decoded::Done { value: pc, rest: rest3 } => {
                                    match spec_pairs(
                                        rest3,
                                        pc as int,
                                        spec_ranged(0, (sa_count - 1) as u32),
                                        Seq::empty(),
                                    ) {
                                        Decoded::Fail { err } => {},
                                        Decoded::Done { value: pairs, rest: rest4 } => {
                                            let row = ConversionModel {
                                                source: Alphabet { index: src },
                                                target: Alphabet { index: tgt },
                                                pairs,
                                            };
                                            lemma_conversions_lex_ordered(
                                                rest4,
                                                n - 1,
                                                a_count,
                                                sa_count,
                                                src,
                                                (tgt + 1) as usize,
                                                acc.push(row),
                                            );
                                            match spec_conversions(
                                                rest4,
                                                n - 1,
                                                a_count,
                                                sa_count,
                                                src,
                                                (tgt + 1) as usize,
                                                acc.push(row),
                                            ) {
                                                Decoded::Fail { err } => {},
                                                Decoded::Done { value: v, rest: r2 } => {
                                                    assert(v.take(acc.push(row).len() as int)
                                                        == acc.push(row));
                                                    assert(v.take(acc.len() as int) =~= acc) by {
                                                        assert(forall|j: int|
                                                            0 <= j < acc.len() ==> v.take(
                                                                acc.push(row).len() as int,
                                                            )[j] == #[trigger] v[j]);
                                                    }
                                                    assert(v[acc.len() as int] == acc.push(row)[
                                                        acc.len() as int]);
                                                },
                                            }
                                        },
                                    }
                                },
                            }
                        },
                    }
                }
            },
        }
    }
}

/// Law: the complements of one definition come out strictly increasing,
/// all between the running lower bound and the largest concept.
pub proof fn lemma_complements_strictly_increasing(
    s: Seq<bool>,
    min_comp: usize,
    c_max: usize,
    acc: Seq<usize>,
)
    requires
        min_comp >= 1,
        c_max <= 0x80000000,
    ensures
        match spec_complements(s, min_comp, c_max, acc) {
            Decoded::Done { value: v, rest } => {
                &&& v.len() >= acc.len()
                &&& v.take(acc.len() as int) == acc
                &&& forall|j: int|
                    acc.len() <= j < v.len() ==> min_comp <= #[trigger] v[j] <= c_max
                &&& forall|j: int| acc.len() <= j < v.len() - 1 ==> #[trigger] v[j] < v[j + 1]
            },
            Decoded::Fail { .. } => true,
        },
    decreases s.len(),
{
    if min_comp >= c_max || s.len() == 0 || !s[0] {
        match spec_complements(s, min_comp, c_max, acc) {
            Decoded::Done { value: v, rest } => {
                assert(v.take(acc.len() as int) =~= acc);
            },
            Decoded::Fail { .. } => {},
        }
    } else {
        lemma_ranged_usize_symbol_bounds(min_comp, c_max, s.drop_first());
        crate::codec::lemma_read_symbol_consumes(
            &spec_ranged_usize(min_comp, c_max),
            s.drop_first(),
        );
        match spec_read_symbol(&spec_ranged_usize(min_comp, c_max), s.drop_first()) {
            Decoded::Fail { err } => {},
            Decoded::Done { value: comp, rest } => {
                lemma_complements_strictly_increasing(
                    rest,
                    (comp + 1) as usize,
                    c_max,
                    acc.push(comp),
                );
                match spec_complements(rest, (comp + 1) as usize, c_max, acc.push(comp)) {
                    Decoded::Fail { err } => {},
                    Decoded::Done { value: v, rest: r2 } => {
                        assert(v.take(acc.push(comp).len() as int) == acc.push(comp));
                        assert(v.take(acc.len() as int) =~= acc) by {
                            assert(forall|j: int|
                                0 <= j < acc.len() ==> v.take(acc.push(comp).len() as int)[j]
                                    == #[trigger] v[j]);
                        }
                        assert(v[acc.len() as int] == acc.push(comp)[acc.len() as int]);
                    },
                }
            },
        }
    }
}

/// Law: the derived correlation lookup is a pure function of the decoded
/// database and the index: it reads no other state, so repeated
/// evaluations agree.
pub proof fn lemma_complete_correlation_repeatable(
    r: &SdbReadResult,
    index: int,
    first: Option<Seq<(Alphabet, Seq<char>)>>,
    second: Option<Seq<(Alphabet, Seq<char>)>>,
)
    requires
        first == spec_complete_correlation(r, index),
        second == spec_complete_correlation(r, index),
    ensures
        first == second,
{
}

/// A symbol read from a usize ranged table lies between its bounds.
pub proof fn lemma_ranged_usize_symbol_bounds(min: usize, max: usize, s: Seq<bool>)
    requires
        min <= max,
        max - min < 0x80000000,
    ensures
        match spec_read_symbol(&spec_ranged_usize(min, max), s) {
            Decoded::Done { value, rest } => min <= value <= max,
            Decoded::Fail { .. } => true,
        },
{
    let t = spec_ranged_usize(min, max);
    lemma_ranged_usize_fields(min, max);
    lemma_read_symbol_emits(&t, s);
}

} // verus!
