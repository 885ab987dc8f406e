use terminus_store::bitarray::{BitArray, BitBuffer, FormatError};
use terminus_store::bitindex::{width_for, BitIndex};
use terminus_store::logarray::{logarray_entries, logarray_length_and_width, LogArrayBuilder};

fn index_of(bytes: &[u8], n_bits: u64) -> BitIndex {
    let mut data = bytes.to_vec();
    data.extend_from_slice(&n_bits.to_be_bytes());
    BitIndex::new(BitArray::from_bytes(data).unwrap())
}

#[test]
fn rank_boundary() {
    let mut bytes = vec![0xffu8; 8];
    bytes.extend_from_slice(&[0u8; 8]);
    let index = index_of(&bytes, 128);
    assert_eq!(index.rank1(64), 64);
    assert_eq!(index.rank1(128), 64);
    assert_eq!(index.select1(64), Some(63));
    assert_eq!(index.select1(65), None);
    assert_eq!(index.select0(1), Some(64));
    assert_eq!(index.select0(64), Some(127));
    assert_eq!(index.select0(65), None);
}

#[test]
fn select_within_range() {
    let index = index_of(&[0b1010_1010], 8);
    assert_eq!(index.select1_from_range(2, 2, 8), Some(4));
    assert_eq!(index.select1_from_range(3, 2, 8), Some(6));
    assert_eq!(index.select1_from_range(4, 2, 8), None);
    assert_eq!(index.select1_from_range(1, 7, 8), None);
    assert_eq!(index.select1_from_range(0, 2, 8), None);
    assert_eq!(index.select0_from_range(1, 2, 8), Some(3));
    assert_eq!(index.rank1_from_range(2, 8), 3);
    assert_eq!(index.rank0_from_range(2, 8), 3);
}

#[test]
fn rank_sum_is_position() {
    let bytes: Vec<u8> = (0..500u32).map(|i| (i.wrapping_mul(37) ^ (i >> 3)) as u8).collect();
    let n = 500 * 8 - 5;
    let index = index_of(&bytes[..(n as usize + 7) / 8], n);
    for i in 0..=n {
        assert_eq!(index.rank1(i) + index.rank0(i), i);
    }
}

#[test]
fn select_then_rank() {
    let bytes: Vec<u8> = (0..900u32).map(|i| (i.wrapping_mul(101) >> 2) as u8).collect();
    let n = 900 * 8;
    let index = index_of(&bytes, n);
    let ones = index.rank1(n);
    let zeros = index.rank0(n);
    assert!(ones > 0 && zeros > 0);
    for r in 1..=ones {
        let p = index.select1(r).unwrap();
        assert!(index.get(p));
        assert_eq!(index.rank1(p + 1), r);
    }
    for r in 1..=zeros {
        let p = index.select0(r).unwrap();
        assert!(!index.get(p));
        assert_eq!(index.rank0(p + 1), r);
    }
    assert_eq!(index.select1(ones + 1), None);
    assert_eq!(index.select0(zeros + 1), None);
    assert_eq!(index.select1(0), None);
}

#[test]
fn index_files_read_back() {
    let bytes: Vec<u8> = (0..700u32).map(|i| (i * 7) as u8).collect();
    let index = index_of(&bytes, 700 * 8);
    let (blocks, sblocks) = index.index_files();
    let width = width_for(700 * 8);
    assert_eq!(width, 13);
    assert_eq!(logarray_length_and_width(&blocks), Ok((88, 13)));
    assert_eq!(logarray_length_and_width(&sblocks), Ok((2, 13)));
    let block_values = logarray_entries(&blocks).unwrap();
    assert_eq!(block_values[0], index.rank1(64));
    assert_eq!(block_values[87], index.rank1(700 * 8));
    let sblock_values = logarray_entries(&sblocks).unwrap();
    assert_eq!(sblock_values, vec![index.rank1(3328), index.rank1(700 * 8)]);

    let mut data = bytes.clone();
    data.extend_from_slice(&(700u64 * 8).to_be_bytes());
    let loaded = BitIndex::from_maps(data.clone(), blocks.clone(), sblocks.clone()).unwrap();
    assert_eq!(loaded.len(), 700 * 8);

    let mut wrong = LogArrayBuilder::new(13);
    for _ in 0..88 {
        wrong.push(0);
    }
    assert!(matches!(
        BitIndex::from_maps(data, wrong.finalize(), sblocks),
        Err(FormatError::IndexMismatch)
    ));
}

#[test]
fn bit_array_file_form() {
    let mut buf = BitBuffer::new();
    for b in [true, false, true, true, false, false, false, false, true] {
        buf.push(b);
    }
    assert_eq!(buf.len(), 9);
    let file = buf.finalize();
    assert_eq!(file, vec![0b1011_0000, 0b1000_0000, 0, 0, 0, 0, 0, 0, 0, 9]);
    let array = BitArray::from_bytes(file).unwrap();
    assert_eq!(array.len(), 9);
    assert!(array.get(0) && !array.get(1) && array.get(3) && array.get(8));
    assert!(matches!(BitArray::from_bytes(vec![0, 0, 0]), Err(FormatError::MissingControl)));
    assert!(matches!(
        BitArray::from_bytes(vec![0, 0, 0, 0, 0, 0, 0, 0, 0, 17]),
        Err(FormatError::LengthMismatch)
    ));
}

#[test]
fn width_for_values() {
    assert_eq!(width_for(0), 1);
    assert_eq!(width_for(1), 1);
    assert_eq!(width_for(2), 2);
    assert_eq!(width_for(255), 8);
    assert_eq!(width_for(256), 9);
    assert_eq!(width_for(u64::MAX), 64);
}

#[test]
fn empty_index() {
    let index = index_of(&[], 0);
    assert_eq!(index.rank1(0), 0);
    assert_eq!(index.select1(1), None);
    assert_eq!(index.select0(1), None);
}

#[test]
fn range_counts_ignore_bits_outside() {
    // Two buffers that agree on bits [64, 128) only.
    let mut first = vec![0x00u8; 8];
    first.extend_from_slice(&[0x5a; 8]);
    first.extend_from_slice(&[0xff; 8]);
    let mut second = vec![0xffu8; 8];
    second.extend_from_slice(&[0x5a; 8]);
    second.extend_from_slice(&[0x00; 8]);
    let a = index_of(&first, 192);
    let b = index_of(&second, 192);
    for start in [64u64, 70, 100] {
        for end in [start, 110, 128] {
            assert_eq!(a.rank1_from_range(start, end), b.rank1_from_range(start, end));
            assert_eq!(a.rank0_from_range(start, end), b.rank0_from_range(start, end));
        }
    }
    for r in 1..=32u64 {
        assert_eq!(a.select1_from_range(r, 64, 128), b.select1_from_range(r, 64, 128));
        assert_eq!(a.select0_from_range(r, 64, 128), b.select0_from_range(r, 64, 128));
    }
    assert_eq!(a.select1_from_range(33, 64, 128), None);
}
