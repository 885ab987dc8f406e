use terminus_store::bitarray::FormatError;
use terminus_store::logarray::{logarray_entries, logarray_length_and_width, LogArrayBuilder};

#[test]
fn logarray_round_trip() {
    let contents = vec![21u64, 1, 30, 13, 23, 21, 3, 0, 21, 21, 12, 11];
    let mut b = LogArrayBuilder::new(5);
    for &x in &contents {
        b.push(x);
    }
    let data = b.finalize();
    assert_eq!(data.len(), 8 + 8);
    assert_eq!(logarray_length_and_width(&data), Ok((12, 5)));
    assert_eq!(logarray_entries(&data).unwrap(), contents);
}

#[test]
fn logarray_wide_entries() {
    let contents = vec![u64::MAX, 0, 1 << 63, 12345678901234567];
    let mut b = LogArrayBuilder::new(64);
    for &x in &contents {
        b.push(x);
    }
    let data = b.finalize();
    assert_eq!(logarray_entries(&data).unwrap(), contents);
}

#[test]
fn logarray_bit_layout() {
    let mut b = LogArrayBuilder::new(3);
    b.push(5);
    b.push(2);
    let data = b.finalize();
    assert_eq!(data, vec![0b1010_1000, 0, 0, 0, 2, 0, 0, 0, 3]);
}

#[test]
fn logarray_errors() {
    assert_eq!(logarray_length_and_width(&vec![1, 2]), Err(FormatError::MissingControl));
    assert_eq!(logarray_entries(&vec![0, 0, 0, 0, 0, 0, 0, 0]), Err(FormatError::BadWidth));
    assert_eq!(logarray_entries(&vec![0, 0, 0, 2, 0, 0, 0, 4]), Err(FormatError::LengthMismatch));
    assert_eq!(logarray_entries(&vec![0, 0, 0, 0, 0, 0, 0, 4]), Ok(vec![]));
}
