use disk_bloom::bitvec::{BitError, BitVec};

fn set_bit(bits: &BitVec, table: &mut Vec<u8>, index: usize) -> Result<(), BitError> {
    let pos = bits.position(index)? as usize;
    table[pos] = bits.set(index, table[pos])?;
    Ok(())
}

fn get_bit(bits: &BitVec, table: &[u8], index: usize) -> Result<bool, BitError> {
    let pos = bits.position(index)? as usize;
    bits.get(index, table[pos])
}

#[test]
fn set_then_get_on_fresh_table() {
    let bits = BitVec::new(64);
    let mut table = vec![0u8; bits.byte_len() as usize];
    set_bit(&bits, &mut table, 5).unwrap();
    assert!(get_bit(&bits, &table, 5).unwrap());
    for i in 0..64 {
        if i != 5 {
            assert!(!get_bit(&bits, &table, i).unwrap());
        }
    }
    assert_eq!(table, vec![0b0010_0000, 0, 0, 0, 0, 0, 0, 0]);
}

#[test]
fn get_out_of_range_fails() {
    let bits = BitVec::new(64);
    assert_eq!(
        bits.get(64, 0),
        Err(BitError::OutOfBounds { index: 64, table_size: 64 })
    );
    assert_eq!(
        bits.position(1000),
        Err(BitError::OutOfBounds { index: 1000, table_size: 64 })
    );
    assert_eq!(bits.get(63, 0x80), Ok(true));
    assert_eq!(bits.position(63), Ok(7));
}

#[test]
fn set_out_of_range_fails() {
    let bits = BitVec::new(10);
    assert_eq!(
        bits.set(10, 0),
        Err(BitError::OutOfBounds { index: 10, table_size: 10 })
    );
}

#[test]
fn set_on_set_bit_keeps_byte() {
    let bits = BitVec::new(64);
    assert_eq!(bits.set(13, 0b0010_0100), Ok(0b0010_0100));
    assert_eq!(bits.set(12, 0b0010_0100), Ok(0b0011_0100));
    assert_eq!(bits.set(8, 0), Ok(1));
}

#[test]
fn set_keeps_other_bits() {
    let bits = BitVec::new(16);
    let stored = 0b1010_0101u8;
    for i in 0..16usize {
        let r = bits.set(i, stored).unwrap();
        assert_eq!(r, stored | (1 << (i % 8)));
        assert_eq!(bits.get(i, r), Ok(true));
        for j in 0..8usize {
            if j != i % 8 {
                assert_eq!(bits.get(j, r), bits.get(j, stored));
            }
        }
    }
}

#[test]
fn byte_len_rounds_up() {
    assert_eq!(BitVec::new(0).byte_len(), 0);
    assert_eq!(BitVec::new(1).byte_len(), 1);
    assert_eq!(BitVec::new(64).byte_len(), 8);
    assert_eq!(BitVec::new(65).byte_len(), 9);
    assert_eq!(BitVec::new(64).len(), 64);
}

#[test]
fn zero_fill_covers_table() {
    assert_eq!(BitVec::new(64).zero_fill_chunks(), vec![1u64; 8]);
    assert_eq!(BitVec::new(8000).zero_fill_chunks(), vec![50u64; 20]);
    let chunks = BitVec::new(8008).zero_fill_chunks();
    assert_eq!(chunks.iter().sum::<u64>(), 1001);
    assert!(chunks.iter().all(|&c| c > 0 && c <= 51));
    assert_eq!(chunks.len(), 20);
    assert_eq!(chunks[19], 32);
    assert!(BitVec::new(0).zero_fill_chunks().is_empty());
    let big = BitVec::new(4_800_000_000).zero_fill_chunks();
    assert_eq!(big, vec![30_000_000u64; 20]);
}
