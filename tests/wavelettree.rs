use terminus_store::bitarray::FormatError;
use terminus_store::bitindex::BitIndex;
use terminus_store::logarray::LogArrayBuilder;
use terminus_store::wavelettree::{build_wavelet_tree, WaveletTree};

fn logarray_of(width: u32, contents: &[u64]) -> Vec<u8> {
    let mut builder = LogArrayBuilder::new(width);
    for &x in contents {
        builder.push(x);
    }
    builder.finalize()
}

fn tree_of(width: u32, contents: &[u64]) -> WaveletTree {
    let source = logarray_of(width, contents);
    let (bits, blocks, sblocks) = build_wavelet_tree(&source).unwrap();
    let index = BitIndex::from_maps(bits, blocks, sblocks).unwrap();
    WaveletTree::from_parts(index, width as usize).unwrap()
}

#[test]
fn generate_and_decode_wavelet_tree() {
    let contents = vec![21, 1, 30, 13, 23, 21, 3, 0, 21, 21, 12, 11];
    let contents_len = contents.len();
    let logarray_file = logarray_of(5, &contents);

    let (wavelet_bits, wavelet_blocks, wavelet_sblocks) = build_wavelet_tree(&logarray_file).unwrap();

    let wavelet_bitindex = BitIndex::from_maps(wavelet_bits, wavelet_blocks, wavelet_sblocks).unwrap();
    let wavelet_tree = WaveletTree::from_parts(wavelet_bitindex, 5).unwrap();

    assert_eq!(contents_len, wavelet_tree.len());

    assert_eq!(contents, wavelet_tree.decode());
}

#[test]
fn slice_wavelet_tree() {
    let contents = vec![8, 3, 8, 8, 1, 2, 3, 2, 8, 9, 3, 3, 6, 7, 0, 4, 8, 7, 3];
    let logarray_file = logarray_of(4, &contents);

    let (wavelet_bits, wavelet_blocks, wavelet_sblocks) = build_wavelet_tree(&logarray_file).unwrap();

    let wavelet_bitindex = BitIndex::from_maps(wavelet_bits, wavelet_blocks, wavelet_sblocks).unwrap();
    let wavelet_tree = WaveletTree::from_parts(wavelet_bitindex, 4).unwrap();

    let slice = wavelet_tree.lookup(8).unwrap();
    assert_eq!(vec![0, 2, 3, 8, 16], slice.iter());
    let slice = wavelet_tree.lookup(3).unwrap();
    assert_eq!(vec![1, 6, 10, 11, 18], slice.iter());
    let slice = wavelet_tree.lookup(0).unwrap();
    assert_eq!(vec![14], slice.iter());
    let slice = wavelet_tree.lookup(5);
    assert!(slice.is_none());
}

#[test]
fn decode_one_matches_each_symbol() {
    let contents = vec![21u64, 1, 30, 13, 23, 21, 3, 0, 21, 21, 12, 11];
    let tree = tree_of(5, &contents);
    assert_eq!(tree.num_layers(), 5);
    for (i, &x) in contents.iter().enumerate() {
        assert_eq!(tree.decode_one(i), x);
    }
}

#[test]
fn lookup_lists_sorted_occurrences() {
    let contents = vec![8u64, 3, 8, 8, 1, 2, 3, 2, 8, 9, 3, 3, 6, 7, 0, 4, 8, 7, 3];
    let tree = tree_of(4, &contents);
    for v in 0..16u64 {
        let expected: Vec<u64> = contents
            .iter()
            .enumerate()
            .filter(|(_, &x)| x == v)
            .map(|(i, _)| i as u64)
            .collect();
        match tree.lookup(v) {
            Some(slice) => {
                assert_eq!(slice.len(), expected.len());
                assert_eq!(slice.iter(), expected);
                assert_eq!(slice.entry, v);
                for (k, &p) in expected.iter().enumerate() {
                    assert_eq!(slice.entry(k), p);
                }
            }
            None => assert!(expected.is_empty()),
        }
    }
}

#[test]
fn lookup_outside_alphabet_is_absent() {
    let tree = tree_of(4, &[15, 15, 15]);
    assert!(tree.lookup(15).is_some());
    assert!(tree.lookup(16).is_none());
    assert!(tree.lookup(31).is_none());
}

#[test]
fn single_bit_symbols() {
    let tree = tree_of(1, &[0, 0, 1, 0, 1]);
    assert_eq!(tree.decode_one(2), 1);
    assert_eq!(tree.lookup(1).unwrap().iter(), vec![2, 4]);
    assert_eq!(tree.lookup(0).unwrap().iter(), vec![0, 1, 3]);
    assert_eq!(tree.decode(), vec![0, 0, 1, 0, 1]);
}

#[test]
fn empty_sequence_tree() {
    let tree = tree_of(3, &[]);
    assert_eq!(tree.len(), 0);
    assert_eq!(tree.decode(), Vec::<u64>::new());
    assert!(tree.lookup(0).is_none());
}

#[test]
fn construction_is_deterministic() {
    let source = logarray_of(5, &[21, 1, 30, 13, 23, 21, 3, 0, 21, 21, 12, 11]);
    let first = build_wavelet_tree(&source).unwrap();
    let second = build_wavelet_tree(&source).unwrap();
    assert_eq!(first, second);
}

#[test]
fn tree_bit_layout() {
    // w = 2, S = [2, 1, 3, 0]: layer 0 holds the high bits [1, 0, 1, 0]; layer 1 holds the
    // low bits of fragment 0 (1, 0) then fragment 1 (2, 3): [1, 0, 0, 1].
    let source = logarray_of(2, &[2, 1, 3, 0]);
    let (bits, _, _) = build_wavelet_tree(&source).unwrap();
    assert_eq!(bits, vec![0b1010_1001, 0, 0, 0, 0, 0, 0, 0, 8]);
}

#[test]
fn from_parts_rejects_bad_layer_counts() {
    let source = logarray_of(3, &[1, 2, 3]);
    let (bits, blocks, sblocks) = build_wavelet_tree(&source).unwrap();
    let index = BitIndex::from_maps(bits.clone(), blocks.clone(), sblocks.clone()).unwrap();
    assert!(matches!(WaveletTree::from_parts(index, 2), Err(FormatError::NotMultipleOfLayers)));
    let index = BitIndex::from_maps(bits.clone(), blocks.clone(), sblocks.clone()).unwrap();
    assert!(matches!(WaveletTree::from_parts(index, 0), Err(FormatError::NotMultipleOfLayers)));
    let index = BitIndex::from_maps(bits, blocks, sblocks).unwrap();
    assert!(matches!(WaveletTree::from_parts(index, 4), Err(FormatError::NotMultipleOfLayers)));
}

#[test]
fn from_parts_rejects_too_many_layers() {
    let source = logarray_of(1, &[0; 65]);
    let (bits, blocks, sblocks) = build_wavelet_tree(&source).unwrap();
    let index = BitIndex::from_maps(bits, blocks, sblocks).unwrap();
    assert!(matches!(WaveletTree::from_parts(index, 65), Err(FormatError::BadWidth)));
}

#[test]
fn build_rejects_bad_sources() {
    assert_eq!(build_wavelet_tree(&vec![0, 0, 0]), Err(FormatError::MissingControl));
    assert_eq!(build_wavelet_tree(&vec![0, 0, 0, 1, 0, 0, 0, 0]), Err(FormatError::BadWidth));
    assert_eq!(build_wavelet_tree(&vec![0, 0, 0, 1, 0, 0, 0, 65]), Err(FormatError::BadWidth));
    assert_eq!(build_wavelet_tree(&vec![0, 0, 0, 1, 0, 0, 0, 4]), Err(FormatError::LengthMismatch));
}
