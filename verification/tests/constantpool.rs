use classfile::constantpool::lookup;
use classfile::{
    parse_constant_pool, parse_entries, ConstantPool, ConstantPoolItem, Cursor, DecodeError,
};

fn utf8(text: &str) -> ConstantPoolItem {
    ConstantPoolItem::Utf8(text.to_string())
}

fn dangling(entry: usize, index: usize) -> Result<(), DecodeError> {
    Err(DecodeError::DanglingReference { entry, index })
}

fn mismatch(entry: usize, index: usize) -> Result<(), DecodeError> {
    Err(DecodeError::TypeMismatch { entry, index })
}

/// A pool of declared count 8 as it stands in a class file, followed by two more bytes.
fn small_pool_bytes() -> Vec<u8> {
    let mut bytes = Vec::new();
    bytes.extend_from_slice(&[10, 0, 2, 0, 3]); // 1: Methodref(2, 3)
    bytes.extend_from_slice(&[7, 0, 4]); // 2: Class(4)
    bytes.extend_from_slice(&[12, 0, 5, 0, 6]); // 3: NameAndType(5, 6)
    bytes.extend_from_slice(&[1, 0, 16]); // 4: Utf8
    bytes.extend_from_slice(b"java/lang/Object");
    bytes.extend_from_slice(&[1, 0, 6]); // 5: Utf8
    bytes.extend_from_slice(b"<init>");
    bytes.extend_from_slice(&[1, 0, 3]); // 6: Utf8
    bytes.extend_from_slice(b"()V");
    bytes.extend_from_slice(&[3, 0, 0, 0, 42]); // 7: Integer
    bytes.extend_from_slice(&[0x00, 0x21]);
    bytes
}

fn small_pool_entries() -> Vec<ConstantPoolItem> {
    vec![
        ConstantPoolItem::Methodref(2, 3),
        ConstantPoolItem::Class(4),
        ConstantPoolItem::NameAndType(5, 6),
        utf8("java/lang/Object"),
        utf8("<init>"),
        utf8("()V"),
        ConstantPoolItem::Integer(42),
    ]
}

#[test]
fn empty_table_resolves() {
    assert_eq!(parse_constant_pool(&vec![]), Ok(()));
}

#[test]
fn table_without_references_resolves() {
    let pool = vec![
        utf8("a"),
        ConstantPoolItem::Integer(1),
        ConstantPoolItem::Float(2),
        ConstantPoolItem::Long(3),
        ConstantPoolItem::Double(4),
    ];
    assert_eq!(parse_constant_pool(&pool), Ok(()));
}

#[test]
fn class_pointing_at_text_resolves() {
    assert_eq!(parse_constant_pool(&vec![utf8("Foo"), ConstantPoolItem::Class(1)]), Ok(()));
}

#[test]
fn references_may_point_forward() {
    assert_eq!(parse_constant_pool(&vec![ConstantPoolItem::Class(2), utf8("Foo")]), Ok(()));
}

#[test]
fn class_pointing_at_an_integer_is_a_type_mismatch() {
    let pool = vec![ConstantPoolItem::Integer(5), ConstantPoolItem::Class(1)];
    assert_eq!(parse_constant_pool(&pool), mismatch(2, 1));
}

#[test]
fn class_pointing_at_itself_is_a_type_mismatch() {
    assert_eq!(parse_constant_pool(&vec![ConstantPoolItem::Class(1)]), mismatch(1, 1));
}

#[test]
fn class_with_index_zero_is_dangling() {
    assert_eq!(parse_constant_pool(&vec![utf8("Foo"), ConstantPoolItem::Class(0)]), dangling(2, 0));
}

#[test]
fn class_with_index_beyond_the_table_is_dangling() {
    let pool = vec![utf8("Foo"), ConstantPoolItem::Class(3)];
    assert_eq!(parse_constant_pool(&pool), dangling(2, 3));
    let pool = vec![utf8("Foo"), ConstantPoolItem::Class(usize::MAX)];
    assert_eq!(parse_constant_pool(&pool), dangling(2, usize::MAX));
}

#[test]
fn index_equal_to_the_table_length_names_the_last_entry() {
    assert_eq!(parse_constant_pool(&vec![ConstantPoolItem::Class(2), utf8("Foo")]), Ok(()));
    assert_eq!(parse_constant_pool(&vec![ConstantPoolItem::Class(3), utf8("Foo")]), dangling(1, 3));
}

#[test]
fn string_entry_must_point_at_text() {
    assert_eq!(parse_constant_pool(&vec![ConstantPoolItem::String(2), utf8("s")]), Ok(()));
    assert_eq!(
        parse_constant_pool(&vec![ConstantPoolItem::String(2), ConstantPoolItem::Long(1)]),
        mismatch(1, 2)
    );
    assert_eq!(parse_constant_pool(&vec![ConstantPoolItem::String(0)]), dangling(1, 0));
}

#[test]
fn member_references_must_point_at_a_class_and_a_name_and_type() {
    let tail = vec![ConstantPoolItem::Class(4), ConstantPoolItem::NameAndType(4, 4), utf8("x")];
    for head in [
        ConstantPoolItem::Fieldref(2, 3),
        ConstantPoolItem::Methodref(2, 3),
        ConstantPoolItem::InterfaceMethodref(2, 3),
    ] {
        let mut pool = vec![head];
        pool.extend(tail.iter().cloned());
        assert_eq!(parse_constant_pool(&pool), Ok(()));
    }
    for (head, fault) in [
        (ConstantPoolItem::Fieldref(3, 3), mismatch(1, 3)),
        (ConstantPoolItem::Methodref(2, 2), mismatch(1, 2)),
        (ConstantPoolItem::InterfaceMethodref(2, 4), mismatch(1, 4)),
        (ConstantPoolItem::Fieldref(0, 3), dangling(1, 0)),
        (ConstantPoolItem::Methodref(2, 5), dangling(1, 5)),
    ] {
        let mut pool = vec![head];
        pool.extend(tail.iter().cloned());
        assert_eq!(parse_constant_pool(&pool), fault);
    }
}

#[test]
fn name_and_type_must_point_at_two_texts() {
    let pool = vec![ConstantPoolItem::NameAndType(2, 3), utf8("name"), utf8("I")];
    assert_eq!(parse_constant_pool(&pool), Ok(()));
    let pool =
        vec![ConstantPoolItem::NameAndType(2, 3), utf8("name"), ConstantPoolItem::Integer(0)];
    assert_eq!(parse_constant_pool(&pool), mismatch(1, 3));
    let pool = vec![ConstantPoolItem::NameAndType(1, 2), utf8("I")];
    assert_eq!(parse_constant_pool(&pool), mismatch(1, 1));
}

#[test]
fn method_type_must_point_at_text() {
    assert_eq!(parse_constant_pool(&vec![ConstantPoolItem::MethodType(2), utf8("()V")]), Ok(()));
    assert_eq!(parse_constant_pool(&vec![ConstantPoolItem::MethodType(1)]), mismatch(1, 1));
    assert_eq!(parse_constant_pool(&vec![ConstantPoolItem::MethodType(2)]), dangling(1, 2));
}

#[test]
fn method_handle_must_point_at_a_member_reference() {
    for member in [
        ConstantPoolItem::Fieldref(3, 4),
        ConstantPoolItem::Methodref(3, 4),
        ConstantPoolItem::InterfaceMethodref(3, 4),
    ] {
        let pool = vec![
            ConstantPoolItem::MethodHandle(1, 2),
            member,
            ConstantPoolItem::Class(5),
            ConstantPoolItem::NameAndType(5, 5),
            utf8("x"),
        ];
        assert_eq!(parse_constant_pool(&pool), Ok(()));
    }
    let pool = vec![ConstantPoolItem::MethodHandle(1, 2), utf8("x")];
    assert_eq!(parse_constant_pool(&pool), mismatch(1, 2));
    assert_eq!(parse_constant_pool(&vec![ConstantPoolItem::MethodHandle(9, 0)]), dangling(1, 0));
}

#[test]
fn invoke_dynamic_must_point_at_a_name_and_type() {
    let pool = vec![
        ConstantPoolItem::InvokeDynamic(0, 2),
        ConstantPoolItem::NameAndType(3, 3),
        utf8("x"),
    ];
    assert_eq!(parse_constant_pool(&pool), Ok(()));
    let pool = vec![ConstantPoolItem::InvokeDynamic(0, 2), utf8("x")];
    assert_eq!(parse_constant_pool(&pool), mismatch(1, 2));
    let pool = vec![ConstantPoolItem::InvokeDynamic(0, 0), utf8("x")];
    assert_eq!(parse_constant_pool(&pool), dangling(1, 0));
}

#[test]
fn bootstrap_index_of_invoke_dynamic_does_not_point_into_the_pool() {
    for bootstrap in [0usize, 1, 2, 3, 40000] {
        let pool = vec![
            ConstantPoolItem::InvokeDynamic(bootstrap, 2),
            ConstantPoolItem::NameAndType(3, 3),
            utf8("x"),
        ];
        assert_eq!(parse_constant_pool(&pool), Ok(()));
    }
}

#[test]
fn the_first_broken_reference_in_table_order_is_reported() {
    let pool = vec![
        utf8("ok"),
        ConstantPoolItem::Class(1),
        ConstantPoolItem::Class(9),
        ConstantPoolItem::Class(2),
    ];
    assert_eq!(parse_constant_pool(&pool), dangling(3, 9));
    let pool = vec![ConstantPoolItem::Fieldref(7, 8), ConstantPoolItem::Class(0)];
    assert_eq!(parse_constant_pool(&pool), dangling(1, 7));
    let pool = vec![ConstantPoolItem::NameAndType(1, 0), utf8("x")];
    assert_eq!(parse_constant_pool(&pool), mismatch(1, 1));
}

#[test]
fn lookup_counts_from_one() {
    let pool = vec![utf8("first"), utf8("second")];
    assert_eq!(lookup(&pool, 0), None);
    assert_eq!(lookup(&pool, 1), Some(&utf8("first")));
    assert_eq!(lookup(&pool, 2), Some(&utf8("second")));
    assert_eq!(lookup(&pool, 3), None);
    assert_eq!(lookup(&pool, usize::MAX), None);
}

#[test]
fn parse_entries_reads_the_asked_number_of_records() {
    let bytes = small_pool_bytes();
    let mut cursor = Cursor::new(&bytes);
    assert_eq!(parse_entries(&mut cursor, 2), Ok(small_pool_entries()[..2].to_vec()));
    assert_eq!(cursor.consumed(), 8);
    assert_eq!(parse_entries(&mut cursor, 0), Ok(vec![]));
    assert_eq!(cursor.consumed(), 8);
    assert_eq!(parse_entries(&mut cursor, 5), Ok(small_pool_entries()[2..].to_vec()));
    assert_eq!(cursor.consumed(), bytes.len() - 2);
}

#[test]
fn parse_entries_fails_where_the_stream_ends_early() {
    let bytes = [7u8, 0, 1, 7, 0, 2];
    let mut cursor = Cursor::new(&bytes);
    assert_eq!(parse_entries(&mut cursor, 3), Err(DecodeError::Truncated { offset: 6 }));
    let mut cursor = Cursor::new(&bytes[..5]);
    assert_eq!(parse_entries(&mut cursor, 2), Err(DecodeError::Truncated { offset: 4 }));
    let mut cursor = Cursor::new(&bytes[..0]);
    assert_eq!(parse_entries(&mut cursor, 1), Err(DecodeError::Truncated { offset: 0 }));
}

#[test]
fn decode_gives_the_table_and_the_bytes_consumed() {
    let bytes = small_pool_bytes();
    let (pool, consumed) = ConstantPool::decode(&bytes, 8).unwrap();
    assert_eq!(consumed, bytes.len() - 2);
    assert_eq!(&bytes[consumed..], &[0x00, 0x21]);
    assert_eq!(pool.len(), 7);
    assert_eq!(pool.entries(), &small_pool_entries());
}

#[test]
fn decode_twice_gives_identical_tables() {
    let bytes = small_pool_bytes();
    let first = ConstantPool::decode(&bytes, 8);
    let second = ConstantPool::decode(&bytes, 8);
    assert!(first.is_ok());
    assert_eq!(first, second);
    let broken = [7u8, 0, 9];
    assert_eq!(ConstantPool::decode(&broken, 2), ConstantPool::decode(&broken, 2));
}

#[test]
fn decode_holds_one_entry_less_than_the_declared_count() {
    let bytes = small_pool_bytes();
    for count in 1..=4u16 {
        let mut cursor = Cursor::new(&bytes);
        let entries = parse_entries(&mut cursor, count - 1).unwrap();
        assert_eq!(entries.len(), (count - 1) as usize);
    }
    assert_eq!(ConstantPool::decode(&bytes, 1).map(|(pool, used)| (pool.len(), used)), Ok((0, 0)));
    assert_eq!(ConstantPool::decode(&bytes, 0).map(|(pool, used)| (pool.len(), used)), Ok((0, 0)));
    assert_eq!(ConstantPool::decode(&[], 1).map(|(pool, used)| (pool.len(), used)), Ok((0, 0)));
}

#[test]
fn decode_fails_as_a_whole_on_a_short_stream() {
    let bytes = small_pool_bytes();
    let end = bytes.len() - 2;
    assert_eq!(ConstantPool::decode(&bytes[..end], 9), Err(DecodeError::Truncated { offset: end }));
    assert_eq!(
        ConstantPool::decode(&bytes[..end - 1], 8),
        Err(DecodeError::Truncated { offset: end - 4 })
    );
}

#[test]
fn decode_fails_as_a_whole_on_an_unknown_tag() {
    let bytes = [7u8, 0, 2, 2, 0, 0];
    assert_eq!(ConstantPool::decode(&bytes, 3), Err(DecodeError::UnknownTag { offset: 3, tag: 2 }));
}

#[test]
fn decode_fails_where_resolution_fails() {
    let bytes = [3u8, 0, 0, 0, 5, 7, 0, 1];
    assert_eq!(
        ConstantPool::decode(&bytes, 3),
        Err(DecodeError::TypeMismatch { entry: 2, index: 1 })
    );
    let bytes = [7u8, 0, 0];
    assert_eq!(
        ConstantPool::decode(&bytes, 2),
        Err(DecodeError::DanglingReference { entry: 1, index: 0 })
    );
    let bytes = [7u8, 0, 2];
    assert_eq!(
        ConstantPool::decode(&bytes, 2),
        Err(DecodeError::DanglingReference { entry: 1, index: 2 })
    );
}

#[test]
fn decoding_failure_comes_before_resolution_failure() {
    let bytes = [7u8, 0, 0, 99];
    assert_eq!(
        ConstantPool::decode(&bytes, 3),
        Err(DecodeError::UnknownTag { offset: 3, tag: 99 })
    );
}

#[test]
fn eight_byte_entries_take_one_index() {
    let mut bytes = vec![5u8, 0, 0, 0, 0, 0, 0, 0, 1];
    bytes.extend_from_slice(&[7, 0, 3]);
    bytes.extend_from_slice(&[1, 0, 1, b'C']);
    let (pool, consumed) = ConstantPool::decode(&bytes, 4).unwrap();
    assert_eq!(consumed, bytes.len());
    assert_eq!(pool.get(1), Some(&ConstantPoolItem::Long(1)));
    assert_eq!(pool.get(2), Some(&ConstantPoolItem::Class(3)));
    assert_eq!(pool.get(3), Some(&utf8("C")));
}

#[test]
fn get_counts_from_one() {
    let (pool, _) = ConstantPool::decode(&small_pool_bytes(), 8).unwrap();
    assert_eq!(pool.get(0), None);
    assert_eq!(pool.get(1), Some(&ConstantPoolItem::Methodref(2, 3)));
    assert_eq!(pool.get(7), Some(&ConstantPoolItem::Integer(42)));
    assert_eq!(pool.get(8), None);
}

#[test]
fn from_entries_takes_only_tables_that_resolve() {
    let pool = ConstantPool::from_entries(small_pool_entries()).unwrap();
    assert_eq!(pool.entries(), &small_pool_entries());
    assert_eq!(
        ConstantPool::from_entries(vec![ConstantPoolItem::Class(1)]),
        Err(DecodeError::TypeMismatch { entry: 1, index: 1 })
    );
}
