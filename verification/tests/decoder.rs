use sdb_decoder::sdb::decode_sdb;
use sdb_decoder::sdb::Alphabet;
use sdb_decoder::sdb::CorrelationArrayIndex;
use sdb_decoder::file_utils::ReadError;

/// Writes a stream bit by bit, least significant bit of each byte first,
/// mirroring how the decoder consumes it.
struct BitWriter {
    bytes: Vec<u8>,
    bit: u32,
}

impl BitWriter {
    fn with_magic() -> BitWriter {
        BitWriter { bytes: vec![0x53, 0x44, 0x42, 0x01], bit: 0 }
    }

    fn push_bit(&mut self, b: bool) {
        if self.bit == 0 {
            self.bytes.push(0);
        }
        if b {
            let last = self.bytes.len() - 1;
            self.bytes[last] |= 1 << self.bit;
        }
        self.bit = (self.bit + 1) % 8;
    }

    /// Writes a codeword most significant bit first, as the decoder
    /// accumulates it.
    fn push_code(&mut self, code: u64, nbits: u32) {
        for k in (0..nbits).rev() {
            self.push_bit((code >> k) & 1 == 1);
        }
    }
}

/// Level sizes of the natural-number code with the given alignment.
fn natural_count(k: u32, bits: u32) -> u64 {
    if bits > 0 && bits % k == 0 {
        1u64 << ((bits / k) * (k - 1))
    } else {
        0
    }
}

/// Writes the canonical codeword of the symbol at (bits, local) for a
/// code with the given per-length counts.
fn write_code<F: Fn(u32) -> u64>(w: &mut BitWriter, counts: F, bits: u32, local: u64) {
    let mut base: u64 = 0;
    for j in 1..bits {
        base = (base + counts(j)) * 2;
    }
    w.push_code(base + local, bits);
}

/// Encodes an unsigned number with the natural-number code.
fn write_natural(w: &mut BitWriter, k: u32, v: u64) {
    let mut q: u32 = 1;
    let mut base: u64 = 0;
    loop {
        let cnt = 1u64 << (q * (k - 1));
        if v < base + cnt {
            write_code(w, |b| natural_count(k, b), q * k, v - base);
            return;
        }
        base += cnt;
        q += 1;
    }
}

/// Encodes a signed number with the alignment-8 integer code.
fn write_integer8(w: &mut BitWriter, v: i64) {
    let mut q: u32 = 1;
    let mut hb_prev: i64 = 0;
    loop {
        let half = 1i64 << (q * 7 - 1);
        let hb = hb_prev + half;
        if v >= 0 && v < hb {
            write_code(w, |b| natural_count(8, b), 8 * q, (v - hb_prev) as u64);
            return;
        }
        if v < 0 && v >= -hb {
            write_code(w, |b| natural_count(8, b), 8 * q, (half + v + hb) as u64);
            return;
        }
        hb_prev = hb;
        q += 1;
    }
}

/// Encodes a value of the range `min..=max` with the ranged code.
fn write_ranged(w: &mut BitWriter, min: u64, max: u64, v: u64) {
    assert!(min <= v && v <= max);
    let p = max - min + 1;
    let mut b: u32 = 0;
    while (1u64 << b) < p {
        b += 1;
    }
    let l = (1u64 << b) - p;
    if p == 1 {
        return;
    }
    if v - min < l {
        w.push_code(v - min, b - 1);
    } else {
        w.push_code(2 * l + (v - min - l), b);
    }
}

/// Writes the level-length protocol of the table codec.
fn write_level_lengths(w: &mut BitWriter, levels: &[u64]) {
    let mut rem: u64 = 1;
    for &l in levels {
        write_ranged(w, 0, rem, l);
        rem = (rem - l) * 2;
    }
    assert_eq!(rem, 0);
}

/// Writes a stored character table: the level sizes, then for each level
/// the first character with the natural-8 code and the rest as strictly
/// increasing natural-4 differences.
fn write_chars_table(w: &mut BitWriter, levels: &[u64], symbols: &[char]) {
    write_level_lengths(w, levels);
    let mut next = 0usize;
    for &l in levels {
        if l > 0 {
            let mut prev = symbols[next] as u64;
            write_natural(w, 8, prev);
            next += 1;
            for _ in 1..l {
                let c = symbols[next] as u64;
                write_natural(w, 4, c - prev - 1);
                prev = c;
                next += 1;
            }
        }
    }
}

/// Writes a stored unsigned-number table with the given diff alignment.
fn write_u32_table(w: &mut BitWriter, diff_alignment: u32, levels: &[u64], symbols: &[u64]) {
    write_level_lengths(w, levels);
    let mut next = 0usize;
    for &l in levels {
        if l > 0 {
            let mut prev = symbols[next];
            write_natural(w, 8, prev);
            next += 1;
            for _ in 1..l {
                let v = symbols[next];
                write_natural(w, diff_alignment, v - prev - 1);
                prev = v;
                next += 1;
            }
        }
    }
}

/// Writes a stored signed-number table (integer-8 base, natural-8 diffs).
fn write_i32_table(w: &mut BitWriter, levels: &[u64], symbols: &[i64]) {
    write_level_lengths(w, levels);
    let mut next = 0usize;
    for &l in levels {
        if l > 0 {
            let mut prev = symbols[next];
            write_integer8(w, prev);
            next += 1;
            for _ in 1..l {
                let v = symbols[next];
                write_natural(w, 8, (v - prev - 1) as u64);
                prev = v;
                next += 1;
            }
        }
    }
}

/// The prologue shared by the scenarios: one symbol array `"a"`.
fn write_single_a_prologue(w: &mut BitWriter) {
    write_natural(w, 8, 1); // one symbol array
    write_chars_table(w, &[1], &['a']);
    write_u32_table(w, 3, &[1], &[1]);
    // the single array: its length and character come from one-symbol
    // tables, which use no bits
}

fn chars(s: &str) -> Vec<char> {
    s.chars().collect()
}

#[test]
fn s1_minimal_file_decodes_to_one_array() {
    let mut w = BitWriter::with_magic();
    write_single_a_prologue(&mut w);
    write_natural(&mut w, 8, 0); // languages
    write_natural(&mut w, 8, 0); // conversions
    write_natural(&mut w, 8, 1); // max concept
    write_natural(&mut w, 8, 0); // correlations
    write_natural(&mut w, 8, 0); // correlation arrays
    write_natural(&mut w, 8, 0); // acceptations
    write_natural(&mut w, 8, 0); // definitions
    let r = decode_sdb(w.bytes).unwrap();
    assert_eq!(r.symbol_arrays, vec![chars("a")]);
    assert!(r.languages.is_empty());
    assert!(r.conversions.is_empty());
    assert_eq!(r.max_concept, 1);
    assert!(r.correlations.is_empty());
    assert!(r.correlation_arrays.is_empty());
    assert!(r.acceptations.is_empty());
    assert!(r.definitions.is_empty());
}

#[test]
fn s2_two_languages_one_conversion() {
    let mut w = BitWriter::with_magic();
    write_single_a_prologue(&mut w);
    write_natural(&mut w, 8, 2); // two languages
    write_ranged(&mut w, 0, 675, 0); // "aa"
    write_natural(&mut w, 2, 2); // two alphabets
    write_ranged(&mut w, 1, 675, 1); // "ab"
    write_natural(&mut w, 2, 1); // one alphabet
    write_natural(&mut w, 8, 1); // one conversion
    write_ranged(&mut w, 0, 2, 0); // source alphabet 0
    write_ranged(&mut w, 0, 2, 1); // target alphabet 1
    write_natural(&mut w, 8, 1); // one pair
    write_ranged(&mut w, 0, 0, 0); // pair source symbol array
    write_ranged(&mut w, 0, 0, 0); // pair target symbol array
    write_natural(&mut w, 8, 1); // max concept
    write_natural(&mut w, 8, 0); // correlations
    write_natural(&mut w, 8, 0); // correlation arrays
    write_natural(&mut w, 8, 0); // acceptations
    write_natural(&mut w, 8, 0); // definitions
    let r = decode_sdb(w.bytes).unwrap();
    assert_eq!(r.languages.len(), 2);
    assert_eq!(r.languages[0].code.code, 0);
    assert_eq!(r.languages[0].number_of_alphabets, 2);
    assert_eq!(r.languages[1].code.code, 1);
    assert_eq!(r.languages[1].number_of_alphabets, 1);
    let total: usize = r.languages.iter().map(|l| l.number_of_alphabets).sum();
    assert_eq!(total, 3);
    assert_eq!(r.conversions.len(), 1);
    assert_eq!(r.conversions[0].source.index, 0);
    assert_eq!(r.conversions[0].target.index, 1);
    assert_eq!(
        r.conversions[0].pairs.iter().map(|p| (p.0.index, p.1.index)).collect::<Vec<_>>(),
        vec![(0, 0)]
    );
}

/// Writes the S3 stream: `["hello", "world"]`, one language with two
/// alphabets, one correlation `{0 -> 0}`, one correlation array `[0]`.
fn s3_stream() -> Vec<u8> {
    let mut w = BitWriter::with_magic();
    write_natural(&mut w, 8, 2); // two symbol arrays
    // characters d e h l o r w: one two-bit codeword and six three-bit ones
    write_chars_table(&mut w, &[0, 0, 1, 6], &['d', 'e', 'h', 'l', 'o', 'r', 'w']);
    write_u32_table(&mut w, 3, &[1], &[5]); // both lengths are five
    // "hello" then "world", using the character codes
    let char_counts = |b: u32| [0u64, 0, 1, 6].get(b as usize).copied().unwrap_or(0);
    let code_of = |c: char| -> (u32, u64) {
        match c {
            'd' => (2, 0),
            'e' => (3, 0),
            'h' => (3, 1),
            'l' => (3, 2),
            'o' => (3, 3),
            'r' => (3, 4),
            'w' => (3, 5),
            _ => unreachable!(),
        }
    };
    for word in ["hello", "world"] {
        for c in word.chars() {
            let (bits, local) = code_of(c);
            write_code(&mut w, &char_counts, bits, local);
        }
    }
    write_natural(&mut w, 8, 1); // one language
    write_ranged(&mut w, 0, 675, 4 * 26 + 13); // "en"
    write_natural(&mut w, 2, 2); // two alphabets
    write_natural(&mut w, 8, 0); // conversions
    write_natural(&mut w, 8, 1); // max concept
    write_natural(&mut w, 8, 1); // one correlation
    write_i32_table(&mut w, &[1], &[1]); // its length
    // correlation of length 1: key from 0..=1, value from 0..=1
    write_ranged(&mut w, 0, 1, 0); // key alphabet 0
    write_ranged(&mut w, 0, 1, 0); // value symbol array 0
    write_natural(&mut w, 8, 1); // one correlation array
    write_i32_table(&mut w, &[1], &[1]); // its length
    write_ranged(&mut w, 0, 0, 0); // the single correlation reference
    write_natural(&mut w, 8, 0); // acceptations
    write_natural(&mut w, 8, 0); // definitions
    w.bytes
}

#[test]
fn s3_correlation_then_array() {
    let r = decode_sdb(s3_stream()).unwrap();
    assert_eq!(r.symbol_arrays, vec![chars("hello"), chars("world")]);
    assert_eq!(r.correlations.len(), 1);
    assert_eq!(r.correlations[0].len(), 1);
    assert_eq!(r.correlations[0][0].0.index, 0);
    assert_eq!(r.correlations[0][0].1.index, 0);
    assert_eq!(r.correlation_arrays.len(), 1);
    assert_eq!(r.correlation_arrays[0][0].index, 0);
    let complete = r.get_complete_correlation(CorrelationArrayIndex { index: 0 }).unwrap();
    assert_eq!(complete.len(), 1);
    assert_eq!(complete[0].0, Alphabet { index: 0 });
    assert_eq!(complete[0].1, chars("hello"));
}

#[test]
fn complete_correlation_concatenates_and_repeats() {
    // two correlations over the same alphabet, referenced in one array:
    // the second string is appended to the first
    let mut w = BitWriter::with_magic();
    write_natural(&mut w, 8, 2); // two symbol arrays
    write_chars_table(&mut w, &[0, 1, 2], &['a', 'b', 'c']);
    write_u32_table(&mut w, 3, &[1], &[1]); // both lengths are one
    // arrays "b" and "c": codes for the three characters are
    // a -> (1, 0), b -> (2, 0), c -> (2, 1)
    let char_counts = |b: u32| [0u64, 1, 2].get(b as usize).copied().unwrap_or(0);
    write_code(&mut w, &char_counts, 2, 0); // "b"
    write_code(&mut w, &char_counts, 2, 1); // "c"
    write_natural(&mut w, 8, 1); // one language
    write_ranged(&mut w, 0, 675, 0); // "aa"
    write_natural(&mut w, 2, 2); // two alphabets
    write_natural(&mut w, 8, 0); // conversions
    write_natural(&mut w, 8, 1); // max concept
    write_natural(&mut w, 8, 2); // two correlations
    write_i32_table(&mut w, &[1], &[1]); // every length is one
    write_ranged(&mut w, 0, 1, 0); // first correlation: key 0
    write_ranged(&mut w, 0, 1, 0); // value: array 0 ("b")
    write_ranged(&mut w, 0, 1, 0); // second correlation: key 0
    write_ranged(&mut w, 0, 1, 1); // value: array 1 ("c")
    write_natural(&mut w, 8, 1); // one correlation array
    write_i32_table(&mut w, &[1], &[2]); // its length: 2
    write_ranged(&mut w, 0, 1, 0); // first reference
    write_ranged(&mut w, 0, 1, 1); // second reference
    write_natural(&mut w, 8, 0); // acceptations
    write_natural(&mut w, 8, 0); // definitions
    let r = decode_sdb(w.bytes).unwrap();
    let first = r.get_complete_correlation(CorrelationArrayIndex { index: 0 }).unwrap();
    let second = r.get_complete_correlation(CorrelationArrayIndex { index: 0 }).unwrap();
    assert_eq!(first.len(), 1);
    assert_eq!(first[0].1, chars("bc"));
    // repeated calls agree: the lookup depends on nothing but the data
    assert_eq!(first, second);
}

#[test]
fn s4_acceptation_group() {
    let mut w = BitWriter::with_magic();
    write_single_a_prologue(&mut w);
    write_natural(&mut w, 8, 1); // one language
    write_ranged(&mut w, 0, 675, 0); // "aa"
    write_natural(&mut w, 2, 1); // one alphabet
    write_natural(&mut w, 8, 0); // conversions
    write_natural(&mut w, 8, 1); // max concept
    write_natural(&mut w, 8, 1); // one correlation
    write_i32_table(&mut w, &[1], &[0]); // of length zero
    write_natural(&mut w, 8, 2); // two correlation arrays
    write_i32_table(&mut w, &[1], &[0]); // both empty
    write_natural(&mut w, 8, 1); // one acceptation group
    write_i32_table(&mut w, &[1], &[2]); // group length two
    // concept from 1..=1 uses no bits; the two references select 0 and 1
    write_ranged(&mut w, 0, 0, 0); // first reference: 0
    write_ranged(&mut w, 1, 1, 1); // second reference: 1
    write_natural(&mut w, 8, 0); // definitions
    let r = decode_sdb(w.bytes).unwrap();
    assert_eq!(r.acceptations.len(), 2);
    assert_eq!(r.acceptations[0].concept, 1);
    assert_eq!(r.acceptations[1].concept, 1);
    assert_eq!(r.acceptations[0].correlation_array_index.index, 0);
    assert_eq!(r.acceptations[1].correlation_array_index.index, 1);
}

#[test]
fn s5_definition_with_complement() {
    let mut w = BitWriter::with_magic();
    write_single_a_prologue(&mut w);
    write_natural(&mut w, 8, 0); // languages
    write_natural(&mut w, 8, 0); // conversions
    write_natural(&mut w, 8, 5); // max concept
    write_natural(&mut w, 8, 0); // correlations
    write_natural(&mut w, 8, 0); // correlation arrays
    write_natural(&mut w, 8, 0); // acceptations
    write_natural(&mut w, 8, 1); // one base concept
    write_u32_table(&mut w, 8, &[1], &[1]); // concept map lengths: always 1
    write_ranged(&mut w, 1, 5, 3); // base concept 3
    write_ranged(&mut w, 1, 5, 2); // defined concept 2
    w.push_bit(true); // one complement follows
    write_ranged(&mut w, 1, 5, 4); // the complement: 4
    w.push_bit(false); // residual stop bit, ignored past the last slot
    let r = decode_sdb(w.bytes).unwrap();
    assert_eq!(r.definitions.len(), 1);
    assert_eq!(r.definitions[0].0, 2);
    assert_eq!(r.definitions[0].1.base_concept, 3);
    assert_eq!(r.definitions[0].1.complements, vec![4]);
}

#[test]
fn s6_magic_mismatch_reports_position() {
    let data = vec![0x53, 0x44, 0x42, 0x02, 0x00, 0x00];
    let r = decode_sdb(data);
    assert_eq!(
        r.err(),
        Some(ReadError::UnexpectedByte { expected: 0x01, actual: 0x02, pos: 3 })
    );
}

#[test]
fn truncated_stream_reports_end_of_file() {
    let data = vec![0x53, 0x44, 0x42, 0x01];
    let r = decode_sdb(data);
    assert_eq!(r.err(), Some(ReadError::UnexpectedEndOfFile));
}

#[test]
fn zero_symbol_arrays_is_not_implemented() {
    let mut w = BitWriter::with_magic();
    write_natural(&mut w, 8, 0); // no symbol arrays
    // empty character and length tables: a single empty level list is not
    // possible, so store one unused symbol in each
    write_chars_table(&mut w, &[1], &['a']);
    write_u32_table(&mut w, 3, &[1], &[1]);
    write_natural(&mut w, 8, 0); // languages
    let r = decode_sdb(w.bytes);
    assert_eq!(r.err(), Some(ReadError::NotImplemented));
}

#[test]
fn correlation_as_long_as_alphabets_is_a_format_violation() {
    // one alphabet but a correlation of length one: the format requires
    // the length to stay below the alphabet count
    let mut w = BitWriter::with_magic();
    write_single_a_prologue(&mut w);
    write_natural(&mut w, 8, 1); // one language
    write_ranged(&mut w, 0, 675, 4 * 26 + 13); // "en"
    write_natural(&mut w, 2, 1); // one alphabet
    write_natural(&mut w, 8, 0); // conversions
    write_natural(&mut w, 8, 1); // max concept
    write_natural(&mut w, 8, 1); // one correlation
    write_i32_table(&mut w, &[1], &[1]); // of length one
    let r = decode_sdb(w.bytes);
    assert_eq!(r.err(), Some(ReadError::FormatViolation));
}

#[test]
fn correlation_array_without_correlations_is_an_invalid_range() {
    let mut w = BitWriter::with_magic();
    write_single_a_prologue(&mut w);
    write_natural(&mut w, 8, 0); // languages
    write_natural(&mut w, 8, 0); // conversions
    write_natural(&mut w, 8, 1); // max concept
    write_natural(&mut w, 8, 0); // correlations
    write_natural(&mut w, 8, 1); // one correlation array over none
    let r = decode_sdb(w.bytes);
    assert_eq!(r.err(), Some(ReadError::InvalidRange));
}

#[test]
fn surrogate_codepoint_is_rejected() {
    let mut w = BitWriter::with_magic();
    write_natural(&mut w, 8, 1); // one symbol array
    // a character table whose single symbol is a surrogate code point
    write_level_lengths(&mut w, &[1]);
    write_natural(&mut w, 8, 0xD800);
    let r = decode_sdb(w.bytes);
    assert_eq!(r.err(), Some(ReadError::InvalidCodepoint));
}

#[test]
fn conversions_come_out_in_lexicographic_order() {
    let mut w = BitWriter::with_magic();
    write_single_a_prologue(&mut w);
    write_natural(&mut w, 8, 1); // one language
    write_ranged(&mut w, 0, 675, 0); // "aa"
    write_natural(&mut w, 2, 3); // three alphabets
    write_natural(&mut w, 8, 3); // three conversions
    write_ranged(&mut w, 0, 2, 0); // source 0
    write_ranged(&mut w, 0, 2, 1); // target 1
    write_natural(&mut w, 8, 0); // no pairs
    write_ranged(&mut w, 0, 2, 0); // source 0 again
    write_ranged(&mut w, 2, 2, 2); // target past the previous one
    write_natural(&mut w, 8, 0); // no pairs
    write_ranged(&mut w, 0, 2, 2); // source 2 resets the target floor
    write_ranged(&mut w, 0, 2, 0); // target 0
    write_natural(&mut w, 8, 0); // no pairs
    write_natural(&mut w, 8, 1); // max concept
    write_natural(&mut w, 8, 0); // correlations
    write_natural(&mut w, 8, 0); // correlation arrays
    write_natural(&mut w, 8, 0); // acceptations
    write_natural(&mut w, 8, 0); // definitions
    let r = decode_sdb(w.bytes).unwrap();
    let order: Vec<(usize, usize)> =
        r.conversions.iter().map(|c| (c.source.index, c.target.index)).collect();
    assert_eq!(order, vec![(0, 1), (0, 2), (2, 0)]);
    for pair in order.windows(2) {
        assert!(pair[0] < pair[1]);
    }
}
