use grop::chunk_ends::{ChunkEndsBuilder, ChunkEndsRef};
use grop::chunk_inventory::{ChunkInventory, ChunkInventoryRef};
use grop::chunk_list::ChunkListRef;
use grop::database::{DatabaseBuilder, DatabaseRef};

fn list_ids(r: ChunkListRef<'_>) -> Vec<u64> {
    let mut it = r.into_iter();
    let mut out = Vec::new();
    while let Some(v) = it.next() {
        out.push(v.unwrap());
    }
    out
}

#[test]
fn test() {
    let mut b = ChunkEndsBuilder::new();
    b.add(12);
    b.add(99);
    b.add(1024);
    let mut bytes = vec![];
    b.write(&mut bytes);

    assert_eq!(16, bytes.len());
    let ends = ChunkEndsRef::from(&bytes).unwrap();
    assert_eq!(bytes.len(), ends.1);
    let ends = ends.0;
    assert_eq!(12, ends.get(0));
    assert_eq!(99, ends.get(1));
    assert_eq!(1024, ends.get(2));
}

fn test_inventory_bytes() -> Vec<u8> {
    let mut b = ChunkInventory::builder();
    assert_eq!(0, b.next());
    b.get(0).add(0);
    assert_eq!(1, b.next());
    b.get(1).add(1);
    assert_eq!(2, b.next());
    b.get(2).add(0);
    b.get(2).add(2);

    b.get(0).add(3);
    b.get(1).add(3);
    b.get(2).add(3);

    b.get(1).add(4);

    let mut bytes = vec![];
    b.build().write(&mut bytes);
    bytes
}

#[test]
fn build() {
    let bytes = test_inventory_bytes();
    let (read, _) = ChunkInventoryRef::from(&bytes);
    assert_eq!(vec![0, 3], list_ids(read.get(0)));
    assert_eq!(vec![1, 3, 4], list_ids(read.get(1)));
    assert_eq!(vec![0, 2, 3], list_ids(read.get(2)));
}

#[test]
fn read_write() {
    let bytes = test_inventory_bytes();
    assert_eq!(
        bytes.len(),
        4           // length
        + 3 * 4     // offsets
        + 2 + 3 + 3 // lists
    );

    let (read, used) = ChunkInventoryRef::from(&bytes);
    assert_eq!(used, bytes.len());
    assert_eq!(3, read.len());
    assert_eq!(vec![0, 2, 3], list_ids(read.get(2)));
}

#[test]
fn chunk_inventory_debug() {
    let bytes = test_inventory_bytes();
    let (read, _) = ChunkInventoryRef::from(&bytes);
    let mut all: Vec<Vec<u64>> = Vec::new();
    for i in 0..read.len() {
        all.push(list_ids(read.get(i)));
    }
    assert_eq!(
        r#"[
    [
        0,
        3,
    ],
    [
        1,
        3,
        4,
    ],
    [
        0,
        2,
        3,
    ],
]"#,
        format!("{:#?}", all)
    );
}

fn test_db() -> DatabaseBuilder {
    let mut builder = DatabaseBuilder::new();
    builder.add_trigram(*b"abc", 0);
    builder.add_trigram(*b"bcd", 0);
    builder.add_trigram(*b"cdj", 0);
    builder.add_chunk_end(99, 1);

    builder.add_trigram(*b"abc", 1);
    builder.add_trigram(*b"bcd", 1);
    builder.add_trigram(*b"cdz", 1);
    builder.add_chunk_end(200, 3);

    builder
}

fn chunks_containing_as_vec(db: &DatabaseRef<'_>, trigram: &str) -> Option<Vec<u64>> {
    let t: [u8; 3] = trigram.as_bytes().try_into().unwrap();
    Some(list_ids(db.chunks_containing(&t)?))
}

#[test]
fn lib_test() {
    let mut bytes = vec![];
    test_db().write(&mut bytes);

    assert_eq!(125, bytes.len());
    let db = DatabaseRef::from(&bytes).unwrap();
    assert_eq!(None, chunks_containing_as_vec(&db, "aaa"));
    assert_eq!(Some(vec![0, 1]), chunks_containing_as_vec(&db, "abc"));
    assert_eq!(Some(vec![0, 1]), chunks_containing_as_vec(&db, "bcd"));
    assert_eq!(Some(vec![0]), chunks_containing_as_vec(&db, "cdj"));
    assert_eq!(Some(vec![1]), chunks_containing_as_vec(&db, "cdz"));

    assert_eq!(99, db.chunk_end_offset(0));
    assert_eq!(200, db.chunk_end_offset(1));

    assert_eq!(1, db.chunk_end_line_count(0));
    assert_eq!(3, db.chunk_end_line_count(1));
    assert_eq!(2, db.chunk_count());
    assert_eq!(4, db.trigram_count());
}

#[test]
fn db_bad_magic() {
    let bytes = vec![0x70u8, 0x6f, 0x72, 0x67, 0, 0, 0, 0, 0];
    assert!(DatabaseRef::from(&bytes).is_err());
}

#[test]
fn db_wrong_version() {
    let mut bytes = vec![];
    test_db().write(&mut bytes);
    bytes[4] = 7;
    match DatabaseRef::from(&bytes) {
        Err(grop::database::ReadError::WrongVersion(0, 7)) => {}
        _ => panic!("expected a version error"),
    }
}

#[test]
fn from_lines_small() {
    // three lines, two lines per chunk: two chunks
    let lines: Vec<Vec<u8>> = vec![b"tomato\n".to_vec(), b"potato\n".to_vec(), b"tom\n".to_vec()];
    let builder = DatabaseBuilder::from_lines(&lines, 2, u32::MAX);
    let mut bytes = vec![];
    builder.write(&mut bytes);
    let db = DatabaseRef::from(&bytes).unwrap();
    assert_eq!(2, db.chunk_count());
    assert_eq!(14, db.chunk_end_offset(0));
    assert_eq!(18, db.chunk_end_offset(1));
    assert_eq!(2, db.chunk_end_line_count(0));
    assert_eq!(3, db.chunk_end_line_count(1));
    assert_eq!(Some(vec![0, 1]), chunks_containing_as_vec(&db, "tom"));
    assert_eq!(Some(vec![0]), chunks_containing_as_vec(&db, "pot"));
    assert_eq!(None, chunks_containing_as_vec(&db, "NOP"));
}

#[test]
fn from_lines_byte_budget() {
    // each line is seven bytes; a four-byte budget closes one chunk per line
    let lines: Vec<Vec<u8>> = vec![b"abcdef\n".to_vec(), b"defghi\n".to_vec()];
    let builder = DatabaseBuilder::from_lines(&lines, u32::MAX, 4);
    let mut bytes = vec![];
    builder.write(&mut bytes);
    let db = DatabaseRef::from(&bytes).unwrap();
    assert_eq!(2, db.chunk_count());
    assert_eq!(7, db.chunk_end_offset(0));
    assert_eq!(14, db.chunk_end_offset(1));
    assert_eq!(Some(vec![0, 1]), chunks_containing_as_vec(&db, "def"));
    assert_eq!(Some(vec![1]), chunks_containing_as_vec(&db, "ghi"));
}

#[test]
fn db_truncated() {
    // cutting a valid image short is answered with an error, not a panic
    let mut bytes = vec![];
    test_db().write(&mut bytes);
    for cut in [0, 3, 7, 30, bytes.len() - 1] {
        assert!(DatabaseRef::from(&bytes[..cut]).is_err());
    }
    // trailing bytes are refused too
    bytes.push(0);
    assert!(DatabaseRef::from(&bytes).is_err());
}
