//! The entries of a constant pool and the decoder of one entry.
//!
//! An entry is a tag byte followed by a payload whose width the tag fixes; only the text
//! entry carries its own length. Index fields are kept as read: one-based positions that
//! are resolved once the whole table is known.

use vstd::prelude::*;
use vstd::slice::{slice_subrange, slice_to_vec};
use crate::cursor::{spec_take, Cursor};
use crate::error::DecodeError;
use crate::mutf8::{
    decode_mutf8,
    encode_mutf8,
    is_decodable_text,
    lemma_error_offset_in_bounds,
    lemma_round_trip,
    parse_javaized_utf8,
};
use crate::primitive::{
    be_bytes,
    be_i32,
    be_i64,
    be_value,
    capacity,
    lemma_be_round_trip,
    lemma_signed_round_trip,
    parse_i32,
    parse_i64,
    parse_u16,
    parse_u32,
    parse_u64,
    unsigned_of,
};

verus! {

/// One entry of a constant pool.
///
/// `Float` and `Double` hold the IEEE-754 bit pattern of their number.
#[derive(Clone, Debug, PartialEq, Eq)]
pub enum ConstantPoolItem {
    /// A text.
    Utf8(String),
    /// A 32-bit integer.
    Integer(i32),
    /// The bit pattern of a 32-bit float.
    Float(u32),
    /// A 64-bit integer.
    Long(i64),
    /// The bit pattern of a 64-bit float.
    Double(u64),
    /// A class, by the index of its name.
    Class(usize),
    /// A string constant, by the index of its text.
    String(usize),
    /// A field, by the indices of its class and of its name and type.
    Fieldref(usize, usize),
    /// A method of a class, by the indices of its class and of its name and type.
    Methodref(usize, usize),
    /// A method of an interface, by the indices of its interface and of its name and type.
    InterfaceMethodref(usize, usize),
    /// A name and a type, by the indices of the name and of the descriptor.
    NameAndType(usize, usize),
    /// A method handle: its kind, and the index of the member it refers to.
    MethodHandle(u8, usize),
    /// A method type, by the index of its descriptor.
    MethodType(usize),
    /// A dynamic call site: the index of its bootstrap method in the table of bootstrap
    /// methods, and the index of its name and type.
    InvokeDynamic(usize, usize),
}

/// An entry as a mathematical value: the variants of `ConstantPoolItem`, with a text as the
/// sequence of its characters and every number unbounded.
pub enum ItemView {
    Utf8(Seq<char>),
    Integer(int),
    Float(nat),
    Long(int),
    Double(nat),
    Class(nat),
    String(nat),
    Fieldref(nat, nat),
    Methodref(nat, nat),
    InterfaceMethodref(nat, nat),
    NameAndType(nat, nat),
    MethodHandle(nat, nat),
    MethodType(nat),
    InvokeDynamic(nat, nat),
}

impl View for ConstantPoolItem {
    type V = ItemView;

    open spec fn view(&self) -> ItemView {
        match *self {
            ConstantPoolItem::Utf8(text) => ItemView::Utf8(text@),
            ConstantPoolItem::Integer(value) => ItemView::Integer(value as int),
            ConstantPoolItem::Float(bits) => ItemView::Float(bits as nat),
            ConstantPoolItem::Long(value) => ItemView::Long(value as int),
            ConstantPoolItem::Double(bits) => ItemView::Double(bits as nat),
            ConstantPoolItem::Class(name) => ItemView::Class(name as nat),
            ConstantPoolItem::String(text) => ItemView::String(text as nat),
            ConstantPoolItem::Fieldref(class, member) => ItemView::Fieldref(
                class as nat,
                member as nat,
            ),
            ConstantPoolItem::Methodref(class, member) => ItemView::Methodref(
                class as nat,
                member as nat,
            ),
            ConstantPoolItem::InterfaceMethodref(class, member) => ItemView::InterfaceMethodref(
                class as nat,
                member as nat,
            ),
            ConstantPoolItem::NameAndType(name, descriptor) => ItemView::NameAndType(
                name as nat,
                descriptor as nat,
            ),
            ConstantPoolItem::MethodHandle(kind, reference) => ItemView::MethodHandle(
                kind as nat,
                reference as nat,
            ),
            ConstantPoolItem::MethodType(descriptor) => ItemView::MethodType(descriptor as nat),
            ConstantPoolItem::InvokeDynamic(bootstrap, member) => ItemView::InvokeDynamic(
                bootstrap as nat,
                member as nat,
            ),
        }
    }
}

impl ConstantPoolItem {
    /// The text of a `Utf8` entry.
    pub fn get_string(&self) -> (text: &String)
        requires
            self is Utf8,
        ensures
            *text == self->Utf8_0,
    {
        match self {
            ConstantPoolItem::Utf8(data) => data,
            _ => vstd::pervasive::unreached(),
        }
    }
}

/// The width in bytes of the payload that follows `tag`, for the tags whose payload has a
/// fixed width; `None` for every other byte.
pub open spec fn fixed_width(tag: u8) -> Option<int> {
    if tag == 3 || tag == 4 {
        Some(4)
    } else if tag == 5 || tag == 6 {
        Some(8)
    } else if tag == 7 || tag == 8 || tag == 16 {
        Some(2)
    } else if tag == 9 || tag == 10 || tag == 11 || tag == 12 || tag == 18 {
        Some(4)
    } else if tag == 15 {
        Some(3)
    } else {
        None
    }
}

/// Whether `tag` opens an entry: 1, which opens a text entry, 3 to 12, 15, 16 or 18.
pub open spec fn is_known_tag(tag: u8) -> bool {
    tag == 1 || 3 <= tag <= 12 || tag == 15 || tag == 16 || tag == 18
}

/// The two-byte index field that starts at `at` in `payload`.
pub open spec fn index_at(payload: Seq<u8>, at: int) -> nat {
    be_value(payload.subrange(at, at + 2), 2)
}

/// The entry that `tag` and its fixed-width `payload` stand for.
pub open spec fn fixed_item(tag: u8, payload: Seq<u8>) -> ItemView {
    if tag == 3 {
        ItemView::Integer(be_i32(payload))
    } else if tag == 4 {
        ItemView::Float(be_value(payload, 4))
    } else if tag == 5 {
        ItemView::Long(be_i64(payload))
    } else if tag == 6 {
        ItemView::Double(be_value(payload, 8))
    } else if tag == 7 {
        ItemView::Class(index_at(payload, 0))
    } else if tag == 8 {
        ItemView::String(index_at(payload, 0))
    } else if tag == 9 {
        ItemView::Fieldref(index_at(payload, 0), index_at(payload, 2))
    } else if tag == 10 {
        ItemView::Methodref(index_at(payload, 0), index_at(payload, 2))
    } else if tag == 11 {
        ItemView::InterfaceMethodref(index_at(payload, 0), index_at(payload, 2))
    } else if tag == 12 {
        ItemView::NameAndType(index_at(payload, 0), index_at(payload, 2))
    } else if tag == 15 {
        ItemView::MethodHandle(payload[0] as nat, index_at(payload, 1))
    } else if tag == 16 {
        ItemView::MethodType(index_at(payload, 0))
    } else {
        ItemView::InvokeDynamic(index_at(payload, 0), index_at(payload, 2))
    }
}

/// What one decoding step finds at a position of a byte stream.
pub enum Step {
    /// No byte is left: the stream ends at a record boundary.
    End,
    /// A whole entry, and the position of the byte after it.
    Entry { item: ItemView, next: int },
    /// A failure, and the position at which reading stopped.
    Fault { error: DecodeError, at: int },
}

/// `error` with the offset of a `MalformedEncoding` moved on by `base`.
pub open spec fn rebased(error: DecodeError, base: int) -> DecodeError {
    match error {
        DecodeError::MalformedEncoding { offset } => DecodeError::MalformedEncoding {
            offset: (base + offset) as usize,
        },
        other => other,
    }
}

/// The text entry whose length prefix starts at `body`, the byte after the tag.
pub open spec fn text_entry_at(bytes: Seq<u8>, body: int) -> Step {
    match spec_take(bytes, body, 2) {
        Err(error) => Step::Fault { error, at: body },
        Ok(prefix) => {
            let length = be_value(prefix, 2) as int;
            let start = body + 2;
            match spec_take(bytes, start, length) {
                Err(error) => Step::Fault { error, at: start },
                Ok(payload) => match decode_mutf8(payload) {
                    Ok(text) => Step::Entry { item: ItemView::Utf8(text), next: start + length },
                    Err(error) => Step::Fault { error: rebased(error, start), at: start + length },
                },
            }
        },
    }
}

/// What decoding finds at `pos` in `bytes`: the end of the stream, the entry whose tag is at
/// `pos`, or the failure that reading it runs into.
pub open spec fn entry_at(bytes: Seq<u8>, pos: int) -> Step {
    if pos >= bytes.len() {
        Step::End
    } else {
        let tag = bytes[pos];
        let body = pos + 1;
        if tag == 1 {
            text_entry_at(bytes, body)
        } else {
            match fixed_width(tag) {
                None => Step::Fault {
                    error: DecodeError::UnknownTag { offset: pos as usize, tag },
                    at: body,
                },
                Some(width) => match spec_take(bytes, body, width) {
                    Ok(payload) => Step::Entry {
                        item: fixed_item(tag, payload),
                        next: body + width,
                    },
                    Err(error) => Step::Fault { error, at: body },
                },
            }
        }
    }
}

/// Whether `bytes` holds at `pos` a byte that is not the tag of any kind of entry.
pub open spec fn has_unknown_tag(bytes: Seq<u8>, pos: int) -> bool {
    0 <= pos < bytes.len() && !is_known_tag(bytes[pos])
}

/// Whether the text entry whose length prefix starts at `body` is cut short: the prefix is
/// not whole, or fewer bytes follow it than it declares.
pub open spec fn is_text_cut_short(bytes: Seq<u8>, body: int) -> bool {
    body + 2 > bytes.len() || body + 2 + be_value(bytes.subrange(body, body + 2), 2) > bytes.len()
}

/// Whether `bytes` holds a known tag at `pos` but not the whole of the payload that the tag
/// calls for.
pub open spec fn is_cut_short(bytes: Seq<u8>, pos: int) -> bool {
    &&& 0 <= pos < bytes.len()
    &&& is_known_tag(bytes[pos])
    &&& if bytes[pos] == 1 {
        is_text_cut_short(bytes, pos + 1)
    } else {
        pos + 1 + fixed_width(bytes[pos]).unwrap() > bytes.len()
    }
}

/// Reads the two-byte index field that starts at `at` in `payload`.
fn read_index(payload: &[u8], at: usize) -> (index: usize)
    requires
        at + 2 <= payload@.len(),
    ensures
        index == index_at(payload@, at as int),
{
    proof {
        vstd::slice::axiom_spec_len(payload);
    }
    parse_u16(slice_subrange(payload, at, at + 2)) as usize
}

/// Reads the text entry whose length prefix is next in `cursor`.
fn parse_text_entry(cursor: &mut Cursor) -> (entry: Result<ConstantPoolItem, DecodeError>)
    ensures
        final(cursor).bytes() == old(cursor).bytes(),
        match text_entry_at(old(cursor).bytes(), old(cursor).offset() as int) {
            Step::End => false,
            Step::Entry { item, next } => {
                &&& entry is Ok
                &&& entry->Ok_0@ == item
                &&& final(cursor).offset() == next
            },
            Step::Fault { error, at } => {
                &&& entry == Err::<ConstantPoolItem, DecodeError>(error)
                &&& final(cursor).offset() == at
            },
        },
        entry matches Err(error) ==> if is_text_cut_short(
            old(cursor).bytes(),
            old(cursor).offset() as int,
        ) {
            error is Truncated
        } else {
            error is MalformedEncoding
        },
        entry is Ok ==> !is_text_cut_short(old(cursor).bytes(), old(cursor).offset() as int),
{
    let prefix = cursor.take(2)?;
    let length: usize = parse_u16(prefix) as usize;
    let start: usize = cursor.consumed();
    let payload = cursor.take(length)?;
    let buffer: Vec<u8> = slice_to_vec(payload);
    match parse_javaized_utf8(&buffer) {
        Ok(text) => Ok(ConstantPoolItem::Utf8(text)),
        Err(error) => {
            proof {
                lemma_error_offset_in_bounds(buffer@, 0);
            }
            match error {
                DecodeError::MalformedEncoding { offset } => Err(
                    DecodeError::MalformedEncoding { offset: start + offset },
                ),
                other => Err(other),
            }
        },
    }
}

/// Consumes one entry from `cursor`.
///
/// Returns `Ok(None)`, consuming nothing, where no byte is left. Fails with `UnknownTag` on a
/// tag byte outside 1, 3 to 12, 15, 16 and 18; with `Truncated` where the payload that the
/// tag calls for is cut short by one byte or more, and only there; with `MalformedEncoding`
/// where the text of a text entry cannot be decoded. Offsets in errors count from the start
/// of the cursor's buffer.
pub fn parse_constant_pool_tag(cursor: &mut Cursor) -> (entry: Result<
    Option<ConstantPoolItem>,
    DecodeError,
>)
    ensures
        final(cursor).bytes() == old(cursor).bytes(),
        match entry_at(old(cursor).bytes(), old(cursor).offset() as int) {
            Step::End => {
                &&& entry == Ok::<Option<ConstantPoolItem>, DecodeError>(None)
                &&& final(cursor).offset() == old(cursor).offset()
            },
            Step::Entry { item, next } => {
                &&& entry matches Ok(Some(decoded)) && decoded@ == item
                &&& final(cursor).offset() == next
            },
            Step::Fault { error, at } => {
                &&& entry == Err::<Option<ConstantPoolItem>, DecodeError>(error)
                &&& final(cursor).offset() == at
            },
        },
        has_unknown_tag(old(cursor).bytes(), old(cursor).offset() as int) <==> (entry matches Err(
            error,
        ) && error is UnknownTag),
        is_cut_short(old(cursor).bytes(), old(cursor).offset() as int) <==> (entry matches Err(
            error,
        ) && error is Truncated),
{
    let offset: usize = cursor.consumed();
    let tag: u8 = match cursor.next_byte() {
        Some(tag) => tag,
        None => {
            return Ok(None);
        },
    };
    let item = match tag {
        1 => parse_text_entry(cursor)?,
        3 => {
            let payload = cursor.take(4)?;
            ConstantPoolItem::Integer(parse_i32(payload))
        },
        4 => {
            let payload = cursor.take(4)?;
            ConstantPoolItem::Float(parse_u32(payload))
        },
        5 => {
            let payload = cursor.take(8)?;
            ConstantPoolItem::Long(parse_i64(payload))
        },
        6 => {
            let payload = cursor.take(8)?;
            ConstantPoolItem::Double(parse_u64(payload))
        },
        7 => {
            let payload = cursor.take(2)?;
            ConstantPoolItem::Class(read_index(payload, 0))
        },
        8 => {
            let payload = cursor.take(2)?;
            ConstantPoolItem::String(read_index(payload, 0))
        },
        9 => {
            let payload = cursor.take(4)?;
            ConstantPoolItem::Fieldref(read_index(payload, 0), read_index(payload, 2))
        },
        10 => {
            let payload = cursor.take(4)?;
            ConstantPoolItem::Methodref(read_index(payload, 0), read_index(payload, 2))
        },
        11 => {
            let payload = cursor.take(4)?;
            ConstantPoolItem::InterfaceMethodref(read_index(payload, 0), read_index(payload, 2))
        },
        12 => {
            let payload = cursor.take(4)?;
            ConstantPoolItem::NameAndType(read_index(payload, 0), read_index(payload, 2))
        },
        15 => {
            let payload = cursor.take(3)?;
            ConstantPoolItem::MethodHandle(payload[0], read_index(payload, 1))
        },
        16 => {
            let payload = cursor.take(2)?;
            ConstantPoolItem::MethodType(read_index(payload, 0))
        },
        18 => {
            let payload = cursor.take(4)?;
            ConstantPoolItem::InvokeDynamic(read_index(payload, 0), read_index(payload, 2))
        },
        _ => {
            return Err(DecodeError::UnknownTag { offset, tag });
        },
    };
    Ok(Some(item))
}

/// The record that writes `item`: its tag and its payload.
pub open spec fn encode_entry(item: ItemView) -> Seq<u8> {
    match item {
        ItemView::Utf8(text) => seq![1u8] + be_bytes(encode_mutf8(text).len(), 2) + encode_mutf8(
            text,
        ),
        ItemView::Integer(value) => seq![3u8] + be_bytes(unsigned_of(value, 0x1_0000_0000), 4),
        ItemView::Float(bits) => seq![4u8] + be_bytes(bits, 4),
        ItemView::Long(value) => seq![5u8] + be_bytes(
            unsigned_of(value, 0x1_0000_0000_0000_0000),
            8,
        ),
        ItemView::Double(bits) => seq![6u8] + be_bytes(bits, 8),
        ItemView::Class(name) => seq![7u8] + be_bytes(name, 2),
        ItemView::String(text) => seq![8u8] + be_bytes(text, 2),
        ItemView::Fieldref(class, member) => seq![9u8] + be_bytes(class, 2) + be_bytes(member, 2),
        ItemView::Methodref(class, member) => seq![10u8] + be_bytes(class, 2) + be_bytes(
            member,
            2,
        ),
        ItemView::InterfaceMethodref(class, member) => seq![11u8] + be_bytes(class, 2) + be_bytes(
            member,
            2,
        ),
        ItemView::NameAndType(name, descriptor) => seq![12u8] + be_bytes(name, 2) + be_bytes(
            descriptor,
            2,
        ),
        ItemView::MethodHandle(kind, reference) => seq![15u8, kind as u8] + be_bytes(reference, 2),
        ItemView::MethodType(descriptor) => seq![16u8] + be_bytes(descriptor, 2),
        ItemView::InvokeDynamic(bootstrap, member) => seq![18u8] + be_bytes(bootstrap, 2)
            + be_bytes(member, 2),
    }
}

/// Whether a record can hold `item`: every number fits its field, and the text of a text
/// entry can be read back and takes at most 65535 bytes.
pub open spec fn is_encodable(item: ItemView) -> bool {
    match item {
        ItemView::Utf8(text) => is_decodable_text(text) && encode_mutf8(text).len() <= 0xFFFF,
        ItemView::Integer(value) => -0x8000_0000 <= value < 0x8000_0000,
        ItemView::Float(bits) => bits < 0x1_0000_0000,
        ItemView::Long(value) => -0x8000_0000_0000_0000 <= value < 0x8000_0000_0000_0000,
        ItemView::Double(bits) => bits < 0x1_0000_0000_0000_0000,
        ItemView::Class(name) => name <= 0xFFFF,
        ItemView::String(text) => text <= 0xFFFF,
        ItemView::Fieldref(class, member) => class <= 0xFFFF && member <= 0xFFFF,
        ItemView::Methodref(class, member) => class <= 0xFFFF && member <= 0xFFFF,
        ItemView::InterfaceMethodref(class, member) => class <= 0xFFFF && member <= 0xFFFF,
        ItemView::NameAndType(name, descriptor) => name <= 0xFFFF && descriptor <= 0xFFFF,
        ItemView::MethodHandle(kind, reference) => kind <= 0xFF && reference <= 0xFFFF,
        ItemView::MethodType(descriptor) => descriptor <= 0xFFFF,
        ItemView::InvokeDynamic(bootstrap, member) => bootstrap <= 0xFFFF && member <= 0xFFFF,
    }
}

/// An index field reads back the number that was written into it.
proof fn lemma_index_field(payload: Seq<u8>, at: int, value: nat)
    requires
        0 <= at,
        at + 2 <= payload.len(),
        payload.subrange(at, at + 2) == be_bytes(value, 2),
        value <= 0xFFFF,
    ensures
        index_at(payload, at) == value,
{
    reveal_with_fuel(capacity, 3);
    lemma_be_round_trip(value, 2, Seq::empty());
}

/// The sizes of the fields that records are made of.
proof fn lemma_field_sizes()
    ensures
        capacity(2) == 0x1_0000,
        capacity(4) == 0x1_0000_0000,
        capacity(8) == 0x1_0000_0000_0000_0000,
        forall|value: nat| #[trigger] be_bytes(value, 2).len() == 2,
        forall|value: nat| #[trigger] be_bytes(value, 4).len() == 4,
        forall|value: nat| #[trigger] be_bytes(value, 8).len() == 8,
{
    reveal_with_fuel(capacity, 9);
    reveal_with_fuel(be_bytes, 9);
}

/// Round trip: the record that writes an entry decodes to that entry and ends where the
/// record ends, whatever follows it. This holds for every kind of entry.
pub proof fn lemma_entry_round_trip(item: ItemView, tail: Seq<u8>)
    requires
        is_encodable(item),
    ensures
        entry_at(encode_entry(item) + tail, 0) == (Step::Entry {
            item,
            next: encode_entry(item).len() as int,
        }),
{
    let record = encode_entry(item);
    let bytes = record + tail;
    lemma_field_sizes();
    match item {
        ItemView::Utf8(text) => {
            let written = encode_mutf8(text);
            let length = written.len();
            assert(bytes.subrange(1, 3) =~= be_bytes(length, 2));
            lemma_be_round_trip(length, 2, Seq::empty());
            assert(bytes.subrange(3, 3 + length as int) =~= written);
            lemma_round_trip(text);
        },
        ItemView::Integer(value) => {
            let raw = unsigned_of(value, 0x1_0000_0000);
            lemma_signed_round_trip(value, 0x1_0000_0000);
            assert(bytes.subrange(1, 5) =~= be_bytes(raw, 4));
            lemma_be_round_trip(raw, 4, Seq::empty());
        },
        ItemView::Float(bits) => {
            assert(bytes.subrange(1, 5) =~= be_bytes(bits, 4));
            lemma_be_round_trip(bits, 4, Seq::empty());
        },
        ItemView::Long(value) => {
            let raw = unsigned_of(value, 0x1_0000_0000_0000_0000);
            lemma_signed_round_trip(value, 0x1_0000_0000_0000_0000);
            assert(bytes.subrange(1, 9) =~= be_bytes(raw, 8));
            lemma_be_round_trip(raw, 8, Seq::empty());
        },
        ItemView::Double(bits) => {
            assert(bytes.subrange(1, 9) =~= be_bytes(bits, 8));
            lemma_be_round_trip(bits, 8, Seq::empty());
        },
        ItemView::Class(name) => {
            assert(bytes.subrange(1, 3) =~= be_bytes(name, 2));
            lemma_one_index(bytes, name);
        },
        ItemView::String(text) => {
            assert(bytes.subrange(1, 3) =~= be_bytes(text, 2));
            lemma_one_index(bytes, text);
        },
        ItemView::Fieldref(class, member) => {
            assert(bytes.subrange(1, 5) =~= be_bytes(class, 2) + be_bytes(member, 2));
            lemma_two_indices(bytes, class, member);
        },
        ItemView::Methodref(class, member) => {
            assert(bytes.subrange(1, 5) =~= be_bytes(class, 2) + be_bytes(member, 2));
            lemma_two_indices(bytes, class, member);
        },
        ItemView::InterfaceMethodref(class, member) => {
            assert(bytes.subrange(1, 5) =~= be_bytes(class, 2) + be_bytes(member, 2));
            lemma_two_indices(bytes, class, member);
        },
        ItemView::NameAndType(name, descriptor) => {
            assert(bytes.subrange(1, 5) =~= be_bytes(name, 2) + be_bytes(descriptor, 2));
            lemma_two_indices(bytes, name, descriptor);
        },
        ItemView::MethodHandle(kind, reference) => {
            let payload = bytes.subrange(1, 4);
            assert(payload.subrange(1, 3) =~= be_bytes(reference, 2));
            lemma_index_field(payload, 1, reference);
        },
        ItemView::MethodType(descriptor) => {
            assert(bytes.subrange(1, 3) =~= be_bytes(descriptor, 2));
            lemma_one_index(bytes, descriptor);
        },
        ItemView::InvokeDynamic(bootstrap, member) => {
            assert(bytes.subrange(1, 5) =~= be_bytes(bootstrap, 2) + be_bytes(member, 2));
            lemma_two_indices(bytes, bootstrap, member);
        },
    }
}

/// The payload of a record with one index field reads back that index.
proof fn lemma_one_index(bytes: Seq<u8>, index: nat)
    requires
        bytes.len() >= 3,
        bytes.subrange(1, 3) == be_bytes(index, 2),
        index <= 0xFFFF,
    ensures
        spec_take(bytes, 1, 2) == Ok::<Seq<u8>, DecodeError>(bytes.subrange(1, 3)),
        index_at(bytes.subrange(1, 3), 0) == index,
{
    let payload = bytes.subrange(1, 3);
    assert(payload.subrange(0, 2) =~= payload);
    lemma_index_field(payload, 0, index);
}

/// The payload of a record with two index fields reads back both.
proof fn lemma_two_indices(bytes: Seq<u8>, first: nat, second: nat)
    requires
        bytes.len() >= 5,
        bytes.subrange(1, 5) == be_bytes(first, 2) + be_bytes(second, 2),
        first <= 0xFFFF,
        second <= 0xFFFF,
    ensures
        spec_take(bytes, 1, 4) == Ok::<Seq<u8>, DecodeError>(bytes.subrange(1, 5)),
        index_at(bytes.subrange(1, 5), 0) == first,
        index_at(bytes.subrange(1, 5), 2) == second,
{
    lemma_field_sizes();
    let payload = bytes.subrange(1, 5);
    assert(payload.subrange(0, 2) =~= be_bytes(first, 2));
    assert(payload.subrange(2, 4) =~= be_bytes(second, 2));
    lemma_index_field(payload, 0, first);
    lemma_index_field(payload, 2, second);
}

/// A tag byte outside 1, 3 to 12, 15, 16 and 18 is rejected with `UnknownTag`, whatever
/// follows it.
pub proof fn lemma_unknown_tag(bytes: Seq<u8>, pos: int)
    requires
        has_unknown_tag(bytes, pos),
    ensures
        entry_at(bytes, pos) == (Step::Fault {
            error: DecodeError::UnknownTag { offset: pos as usize, tag: bytes[pos] },
            at: pos + 1,
        }),
{
}

/// A whole record of which only the first `keep` bytes are left, the tag among them,
/// fails with `Truncated`.
pub proof fn lemma_truncated_record(record: Seq<u8>, keep: int)
    requires
        entry_at(record, 0) matches Step::Entry { next, .. } && next == record.len(),
        1 <= keep < record.len(),
    ensures
        entry_at(record.take(keep), 0) matches Step::Fault { error, .. } && error is Truncated,
{
    let cut = record.take(keep);
    if record[0] == 1 {
        if keep >= 3 {
            assert(cut.subrange(1, 3) =~= record.subrange(1, 3));
        }
    }
}

} // verus!
