use sdb_decoder::huffman::HuffmanTable;
use sdb_decoder::huffman::NaturalNumberHuffmanTable;
use sdb_decoder::huffman::NaturalUsizeHuffmanTable;
use sdb_decoder::huffman::IntegerNumberHuffmanTable;
use sdb_decoder::huffman::RangedIntegerHuffmanTable;
use sdb_decoder::huffman::RangedNaturalUsizeHuffmanTable;
use sdb_decoder::file_utils::ReadError;
use sdb_decoder::bits::InputBitStream;
use sdb_decoder::codec::U32ElementReader;

#[test]
fn natural8_level_counts() {
    let t = NaturalNumberHuffmanTable::create_with_alignment(8);
    assert_eq!(t.symbols_with_bits(0), 0);
    assert_eq!(t.symbols_with_bits(7), 0);
    assert_eq!(t.symbols_with_bits(8), 128);
    assert_eq!(t.symbols_with_bits(9), 0);
    assert_eq!(t.symbols_with_bits(16), 16384);
}

#[test]
fn natural8_symbols() {
    let t = NaturalNumberHuffmanTable::create_with_alignment(8);
    assert_eq!(t.get_symbol(8, 0), Ok(0));
    assert_eq!(t.get_symbol(8, 127), Ok(127));
    // the 16-bit level starts right past the 8-bit one
    assert_eq!(t.get_symbol(16, 0), Ok(128));
    assert_eq!(t.get_symbol(16, 5), Ok(133));
}

#[test]
fn natural2_symbols() {
    let t = NaturalNumberHuffmanTable::create_with_alignment(2);
    assert_eq!(t.symbols_with_bits(2), 2);
    assert_eq!(t.symbols_with_bits(4), 4);
    assert_eq!(t.get_symbol(2, 0), Ok(0));
    assert_eq!(t.get_symbol(2, 1), Ok(1));
    assert_eq!(t.get_symbol(4, 0), Ok(2));
    assert_eq!(t.get_symbol(4, 3), Ok(5));
}

#[test]
fn natural_usize_symbols() {
    let t = NaturalUsizeHuffmanTable::create_with_alignment(8);
    assert_eq!(t.get_symbol(8, 3), Ok(3usize));
    assert_eq!(t.get_symbol(16, 0), Ok(128usize));
}

#[test]
fn natural_table_rejects_unsupported_input() {
    let t = NaturalNumberHuffmanTable::create_with_alignment(8);
    assert_eq!(t.get_symbol(0, 0), Err(ReadError::InvalidTableInput));
    assert_eq!(t.get_symbol(7, 0), Err(ReadError::InvalidTableInput));
    assert_eq!(t.get_symbol(8, 128), Err(ReadError::InvalidTableInput));
}

#[test]
fn integer8_symbols_split_in_halves() {
    let t = IntegerNumberHuffmanTable::create_with_alignment(8);
    assert_eq!(t.symbols_with_bits(8), 128);
    // lower half: non-negative values
    assert_eq!(t.get_symbol(8, 0), Ok(0));
    assert_eq!(t.get_symbol(8, 63), Ok(63));
    // upper half: negative values
    assert_eq!(t.get_symbol(8, 64), Ok(-64));
    assert_eq!(t.get_symbol(8, 127), Ok(-1));
    // the 16-bit level continues outward on both sides
    assert_eq!(t.get_symbol(16, 0), Ok(64));
    assert_eq!(t.get_symbol(16, 8191), Ok(64 + 8191));
    assert_eq!(t.get_symbol(16, 8192), Ok(-(64 + 8192)));
    assert_eq!(t.get_symbol(16, 16383), Ok(-65));
}

#[test]
fn ranged_table_shape() {
    // six possibilities: 2^3 = 8, so two short codewords and four long ones
    let t = RangedIntegerHuffmanTable::new(0, 5);
    assert_eq!(t.symbols_with_bits(2), 2);
    assert_eq!(t.symbols_with_bits(3), 4);
    assert_eq!(t.symbols_with_bits(1), 0);
    assert_eq!(t.get_symbol(2, 0), Ok(0));
    assert_eq!(t.get_symbol(2, 1), Ok(1));
    assert_eq!(t.get_symbol(3, 0), Ok(2));
    assert_eq!(t.get_symbol(3, 3), Ok(5));
}

#[test]
fn ranged_table_covers_whole_range() {
    // every value of the range appears exactly once over both levels
    let t = RangedIntegerHuffmanTable::new(3, 9);
    let mut seen = Vec::new();
    for bits in 0..8u32 {
        for i in 0..t.symbols_with_bits(bits) {
            seen.push(t.get_symbol(bits, i).unwrap());
        }
    }
    seen.sort();
    assert_eq!(seen, vec![3, 4, 5, 6, 7, 8, 9]);
}

#[test]
fn ranged_table_power_of_two_collapses() {
    // four possibilities collapse to a fixed two-bit code
    let t = RangedIntegerHuffmanTable::new(10, 13);
    assert_eq!(t.symbols_with_bits(1), 0);
    assert_eq!(t.symbols_with_bits(2), 4);
    assert_eq!(t.get_symbol(2, 0), Ok(10));
    assert_eq!(t.get_symbol(2, 3), Ok(13));
}

#[test]
fn ranged_table_single_value_uses_no_bits() {
    let t = RangedIntegerHuffmanTable::new(7, 7);
    assert_eq!(t.symbols_with_bits(0), 1);
    assert_eq!(t.get_symbol(0, 0), Ok(7));
}

#[test]
fn ranged_usize_table_matches_unsigned_variant() {
    let t = RangedNaturalUsizeHuffmanTable::new(0, 5);
    assert_eq!(t.symbols_with_bits(2), 2);
    assert_eq!(t.symbols_with_bits(3), 4);
    assert_eq!(t.get_symbol(2, 1), Ok(1usize));
    assert_eq!(t.get_symbol(3, 3), Ok(5usize));
    assert_eq!(t.get_symbol(1, 0), Err(ReadError::InvalidTableInput));
}

#[test]
fn computed_table_symbols_are_unique() {
    // concrete check of the uniqueness law on a small slice of the table
    let t = NaturalNumberHuffmanTable::create_with_alignment(3);
    let mut seen = Vec::new();
    for bits in 0..13u32 {
        for i in 0..t.symbols_with_bits(bits) {
            seen.push(t.get_symbol(bits, i).unwrap());
        }
    }
    let mut sorted = seen.clone();
    sorted.sort();
    sorted.dedup();
    assert_eq!(sorted.len(), seen.len());
}

#[test]
fn bit_stream_delivers_least_significant_bit_first() {
    let mut s = InputBitStream::new(vec![0b0000_0101]);
    assert_eq!(s.read_boolean(), Ok(true));
    assert_eq!(s.read_boolean(), Ok(false));
    assert_eq!(s.read_boolean(), Ok(true));
    for _ in 3..8 {
        assert_eq!(s.read_boolean(), Ok(false));
    }
    assert_eq!(s.read_boolean(), Err(ReadError::UnexpectedEndOfFile));
}

#[test]
fn table_codec_reads_levels_and_symbols() {
    // level lengths 0, 1, 2 over the adaptive range protocol:
    //   remainder 1: write 0 as one bit        -> 0
    //   remainder 2: write 1 of 0..=2, 2 bits  -> 10
    //   remainder 2: write 2 of 0..=2, 2 bits  -> 11
    // then symbols 5 (8 bits), 7 (8 bits) and the difference to 9 (3 bits)
    let mut bits: Vec<bool> = Vec::new();
    bits.extend([false]);
    bits.extend([true, false]);
    bits.extend([true, true]);
    for k in (0..8).rev() {
        bits.push((5u32 >> k) & 1 == 1);
    }
    for k in (0..8).rev() {
        bits.push((7u32 >> k) & 1 == 1);
    }
    for k in (0..3).rev() {
        bits.push((1u32 >> k) & 1 == 1); // difference 9 - 7 - 1 = 1
    }
    let mut bytes: Vec<u8> = Vec::new();
    for (i, b) in bits.iter().enumerate() {
        if i % 8 == 0 {
            bytes.push(0);
        }
        if *b {
            let last = bytes.len() - 1;
            bytes[last] |= 1 << (i % 8);
        }
    }
    let mut stream = InputBitStream::new(bytes);
    let reader = U32ElementReader {
        base: NaturalNumberHuffmanTable::create_with_alignment(8),
        diff: NaturalNumberHuffmanTable::create_with_alignment(3),
    };
    let table = stream.read_table(&reader).unwrap();
    assert_eq!(table.symbols_with_bits(0), 0);
    assert_eq!(table.symbols_with_bits(1), 1);
    assert_eq!(table.symbols_with_bits(2), 2);
    assert_eq!(table.get_symbol(1, 0), Ok(5));
    assert_eq!(table.get_symbol(2, 0), Ok(7));
    assert_eq!(table.get_symbol(2, 1), Ok(9));
    // the level-length sum equals the symbol count
    let total: u32 = (0..4).map(|b| table.symbols_with_bits(b)).sum();
    assert_eq!(total, 3);
}
