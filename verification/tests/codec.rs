use grop::chunk_list::{ChunkList, ChunkListBuilder, ChunkListRef};
use grop::codec::Write as _;
use grop::int_always_ascending;
use grop::int_variable;

fn vint_decode_all(bytes: &[u8]) -> Vec<u64> {
    let mut it = int_variable::iter(bytes);
    let mut out = Vec::new();
    while let Some(r) = it.next() {
        out.push(r.unwrap());
    }
    out
}

#[test]
fn vint_examples() {
    let cases: Vec<(Vec<u64>, Vec<u8>)> = vec![
        (vec![1], vec![1]),
        (vec![2], vec![2]),
        (vec![127], vec![127]),
        (vec![4, 5, 6], vec![4, 5, 6]),
        (vec![128], vec![0b1000_0000, 0b0000_0001]),
        (vec![16383], vec![0b1111_1111, 0b0111_1111]),
        (vec![128, 1], vec![0b1000_0000, 0b0000_0001, 1]),
        (vec![16384], vec![0b1000_0000, 0b1000_0000, 0b0000_0001]),
    ];
    for (values, encoded) in cases {
        assert_eq!(vint_decode_all(&encoded), values);
        let mut w = int_variable::write();
        for v in &values {
            w.write(*v);
        }
        assert_eq!(w.finish(), encoded);
    }
}

#[test]
fn vint_round_trip_large() {
    let values: Vec<u64> = vec![0, 1, 127, 128, 300, 65535, 1 << 40, u64::MAX];
    let mut w = int_variable::write();
    for v in &values {
        w.write(*v);
    }
    let bytes = w.finish();
    assert_eq!(vint_decode_all(&bytes), values);
}

#[test]
fn vint_partial_errors() {
    // a lone continuation byte ends mid-value
    let mut it = int_variable::iter(&[0x80]);
    assert!(it.next().unwrap().is_err());
    // ten continuation bytes overflow 64 bits
    let bytes = [0x80u8; 10];
    let mut it = int_variable::iter(&bytes);
    assert!(it.next().unwrap().is_err());
}

fn ascending_decode_all(bytes: &[u8]) -> Vec<u64> {
    let mut it = int_always_ascending::iter(int_variable::iter(bytes));
    let mut out = Vec::new();
    while let Some(r) = it.next() {
        out.push(r.unwrap());
    }
    out
}

#[test]
fn ascending_examples() {
    // raw deltas [1, 0] decode to 1, 2; [1, 1] to 1, 3
    assert_eq!(ascending_decode_all(&[1, 0]), vec![1, 2]);
    assert_eq!(ascending_decode_all(&[1, 1]), vec![1, 3]);
    let mut w = int_always_ascending::write(int_variable::write());
    w.write(1);
    w.write(2);
    assert_eq!(w.finish(), vec![1, 0]);
}

#[test]
fn ascending_round_trip() {
    let values: Vec<u64> = vec![3, 9, 10, 4000, 1 << 50];
    let mut w = int_always_ascending::write(int_variable::write());
    for v in &values {
        w.write(*v);
    }
    assert_eq!(ascending_decode_all(&w.finish()), values);
}

#[test]
fn consume_dupes_examples() {
    // equal neighbours are written once
    let mut w = int_always_ascending::consume_dupes(int_variable::write());
    for v in [1u64, 2, 2] {
        w.write(v);
    }
    assert_eq!(w.finish(), vec![1, 0]);
    let mut w = int_always_ascending::consume_dupes(int_variable::write());
    for v in [1u64, 3, 4, 4] {
        w.write(v);
    }
    assert_eq!(w.finish(), vec![1, 1, 0]);
}

fn list_ids(r: ChunkListRef<'_>) -> Vec<u64> {
    let mut it = r.into_iter();
    let mut out = Vec::new();
    while let Some(v) = it.next() {
        out.push(v.unwrap());
    }
    out
}

fn test_list() -> ChunkList {
    let mut w: ChunkListBuilder = ChunkList::builder();
    w.add(1);
    w.add(2);
    w.add(12);
    w.build()
}

#[test]
fn iter() {
    let chunk_list = test_list();
    // 1 for the first value, 0 because 2 is one past 1, 9 because 12 is
    // ten past 2 and the delta is stored less one
    let mut bytes = Vec::new();
    chunk_list.write(&mut bytes);
    assert_eq!(vec![1, 0, 9], bytes);
    let collected = list_ids(ChunkListRef::from(&bytes));
    assert_eq!(vec![1, 2, 12], collected);
}

#[test]
fn write() {
    let orig = test_list();
    let mut bytes = vec![];
    orig.write(&mut bytes);
    assert_eq!(vec![1, 0, 9], bytes.iter().copied().collect::<Vec<_>>());
    let reference = ChunkListRef::from(&bytes);
    assert_eq!(orig.as_ref(), reference);
}
