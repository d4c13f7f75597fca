//! The constant pool as a table, and the pass that resolves its cross-references.
//!
//! Entries refer to one another by index. Indices count from one: index `i` is the entry at
//! position `i - 1` of the table, and index zero names no entry. Every record takes one
//! index, the eight-byte `Long` and `Double` too: none is left empty behind them. So a pool
//! declared with count `n` holds `n - 1` entries, one for each record.

use vstd::prelude::*;
use crate::cursor::Cursor;
use crate::entry::{entry_at, parse_constant_pool_tag, ConstantPoolItem, ItemView, Step};
use crate::error::DecodeError;

verus! {

/// The kind of entry that an index field has to point at.
#[derive(Clone, Copy, Debug, PartialEq, Eq)]
pub enum Target {
    /// A text entry.
    Utf8,
    /// A class entry.
    Class,
    /// A name-and-type entry.
    NameAndType,
    /// A field, method or interface-method reference.
    Member,
}

/// The entries of `items` as mathematical values.
pub open spec fn table_view(items: Seq<ConstantPoolItem>) -> Seq<ItemView> {
    items.map_values(|item: ConstantPoolItem| item@)
}

/// Whether `item` is of the kind `target`.
pub open spec fn fits(item: ItemView, target: Target) -> bool {
    match target {
        Target::Utf8 => item is Utf8,
        Target::Class => item is Class,
        Target::NameAndType => item is NameAndType,
        Target::Member => item is Fieldref || item is Methodref || item is InterfaceMethodref,
    }
}

/// The first index field of `item` that points into the table, with the kind of entry it has
/// to point at.
pub open spec fn first_reference(item: ItemView) -> Option<(nat, Target)> {
    match item {
        ItemView::Class(name) => Some((name, Target::Utf8)),
        ItemView::String(text) => Some((text, Target::Utf8)),
        ItemView::Fieldref(class, _) => Some((class, Target::Class)),
        ItemView::Methodref(class, _) => Some((class, Target::Class)),
        ItemView::InterfaceMethodref(class, _) => Some((class, Target::Class)),
        ItemView::NameAndType(name, _) => Some((name, Target::Utf8)),
        ItemView::MethodHandle(_, reference) => Some((reference, Target::Member)),
        ItemView::MethodType(descriptor) => Some((descriptor, Target::Utf8)),
        ItemView::InvokeDynamic(_, member) => Some((member, Target::NameAndType)),
        _ => None,
    }
}

/// The second index field of `item` that points into the table, where it has two.
///
/// The first field of an `InvokeDynamic` entry is none: it counts in the table of bootstrap
/// methods, which is no part of the constant pool.
pub open spec fn second_reference(item: ItemView) -> Option<(nat, Target)> {
    match item {
        ItemView::Fieldref(_, member) => Some((member, Target::NameAndType)),
        ItemView::Methodref(_, member) => Some((member, Target::NameAndType)),
        ItemView::InterfaceMethodref(_, member) => Some((member, Target::NameAndType)),
        ItemView::NameAndType(_, descriptor) => Some((descriptor, Target::Utf8)),
        _ => None,
    }
}

/// The entry of `table` with the one-based `index`, where there is one.
pub open spec fn spec_lookup(table: Seq<ItemView>, index: int) -> Option<ItemView> {
    if 1 <= index <= table.len() {
        Some(table[index - 1])
    } else {
        None
    }
}

/// What is wrong with a reference from entry number `entry` to `index`, which has to be of
/// the kind `target`: `DanglingReference` where `index` names no entry, `TypeMismatch` where
/// it names one of another kind.
pub open spec fn reference_fault(
    table: Seq<ItemView>,
    entry: int,
    index: int,
    target: Target,
) -> Option<DecodeError> {
    match spec_lookup(table, index) {
        None => Some(
            DecodeError::DanglingReference { entry: entry as usize, index: index as usize },
        ),
        Some(item) => if fits(item, target) {
            None
        } else {
            Some(DecodeError::TypeMismatch { entry: entry as usize, index: index as usize })
        },
    }
}

/// What is wrong with the references of the entry at position `at`: the fault of its first
/// index field, else that of its second.
pub open spec fn entry_fault(table: Seq<ItemView>, at: int) -> Option<DecodeError> {
    let item = table[at];
    let first = match first_reference(item) {
        Some((index, target)) => reference_fault(table, at + 1, index as int, target),
        None => None,
    };
    let second = match second_reference(item) {
        Some((index, target)) => reference_fault(table, at + 1, index as int, target),
        None => None,
    };
    if first is Some {
        first
    } else {
        second
    }
}

/// Whether every reference in `table` points at an entry of the right kind.
pub open spec fn resolves(table: Seq<ItemView>) -> bool {
    forall|at: int| 0 <= at < table.len() ==> (#[trigger] entry_fault(table, at)) is None
}

/// Whether `error` is the fault of the entry at position `at`, and no entry before it has one.
pub open spec fn is_first_fault(table: Seq<ItemView>, at: int, error: DecodeError) -> bool {
    &&& 0 <= at < table.len()
    &&& entry_fault(table, at) == Some(error)
    &&& forall|before: int| 0 <= before < at ==> (#[trigger] entry_fault(table, before)) is None
}

/// The fault of the first entry at or after position `at` that has one.
pub open spec fn fault_from(table: Seq<ItemView>, at: int) -> Option<DecodeError>
    decreases table.len() - at,
{
    if at < 0 || at >= table.len() {
        None
    } else if entry_fault(table, at) is Some {
        entry_fault(table, at)
    } else {
        fault_from(table, at + 1)
    }
}

/// The outcome of the resolution pass over `table`: the fault of the first entry that has
/// one.
pub open spec fn resolution(table: Seq<ItemView>) -> Result<(), DecodeError> {
    match fault_from(table, 0) {
        Some(error) => Err(error),
        None => Ok(()),
    }
}

/// Where the entries before position `from` have no fault, a fault that `fault_from` finds
/// from there on is the first fault of the table.
proof fn lemma_fault_from_is_first(table: Seq<ItemView>, from: int)
    requires
        0 <= from,
        forall|before: int| 0 <= before < from ==> (#[trigger] entry_fault(table, before)) is None,
    ensures
        fault_from(table, from) matches Some(error) ==> exists|at: int|
            is_first_fault(table, at, error),
    decreases table.len() - from,
{
    if from < table.len() {
        if entry_fault(table, from) is Some {
            assert(is_first_fault(table, from, entry_fault(table, from)->0));
        } else {
            lemma_fault_from_is_first(table, from + 1);
        }
    }
}

/// The entry with the one-based `index`: the one place where an index of the format becomes
/// a position in the table.
pub fn lookup(pool: &Vec<ConstantPoolItem>, index: usize) -> (found: Option<&ConstantPoolItem>)
    ensures
        match found {
            Some(item) => 1 <= index <= pool.len() && *item == pool[index - 1],
            None => index == 0 || index > pool.len(),
        },
{
    if index == 0 || index > pool.len() {
        None
    } else {
        Some(&pool[index - 1])
    }
}

/// Whether `item` is of the kind `target`.
fn is_target(item: &ConstantPoolItem, target: Target) -> (yes: bool)
    ensures
        yes == fits(item@, target),
{
    match target {
        Target::Utf8 => match item {
            ConstantPoolItem::Utf8(_) => true,
            _ => false,
        },
        Target::Class => match item {
            ConstantPoolItem::Class(_) => true,
            _ => false,
        },
        Target::NameAndType => match item {
            ConstantPoolItem::NameAndType(_, _) => true,
            _ => false,
        },
        Target::Member => match item {
            ConstantPoolItem::Fieldref(_, _) => true,
            ConstantPoolItem::Methodref(_, _) => true,
            ConstantPoolItem::InterfaceMethodref(_, _) => true,
            _ => false,
        },
    }
}

/// Checks the reference from entry number `entry` to `index`.
fn check_reference(
    pool: &Vec<ConstantPoolItem>,
    entry: usize,
    index: usize,
    target: Target,
) -> (checked: Result<(), DecodeError>)
    ensures
        checked == match reference_fault(table_view(pool@), entry as int, index as int, target) {
            Some(error) => Err::<(), DecodeError>(error),
            None => Ok(()),
        },
{
    match lookup(pool, index) {
        None => Err(DecodeError::DanglingReference { entry, index }),
        Some(item) => if is_target(item, target) {
            Ok(())
        } else {
            Err(DecodeError::TypeMismatch { entry, index })
        },
    }
}

/// The resolution pass: follows every index field of every entry, in table order.
///
/// Fails at the first reference that is broken, with `DanglingReference` where the index is
/// zero or beyond the table and `TypeMismatch` where the entry it names is of the wrong
/// kind. The error names the referring entry and the index, both counted from one.
pub fn parse_constant_pool(constant_pool: &Vec<ConstantPoolItem>) -> (outcome: Result<
    (),
    DecodeError,
>)
    ensures
        outcome == resolution(table_view(constant_pool@)),
        outcome is Ok <==> resolves(table_view(constant_pool@)),
        outcome matches Err(error) ==> exists|at: int|
            is_first_fault(table_view(constant_pool@), at, error),
{
    let ghost table = table_view(constant_pool@);
    proof {
        lemma_fault_from_is_first(table, 0);
    }
    let mut at: usize = 0;
    while at < constant_pool.len()
        invariant
            at <= constant_pool.len(),
            table == table_view(constant_pool@),
            fault_from(table, 0) matches Some(error) ==> exists|at: int|
                is_first_fault(table, at, error),
            fault_from(table, 0) == fault_from(table, at as int),
            forall|before: int|
                0 <= before < at ==> (#[trigger] entry_fault(table, before)) is None,
        decreases constant_pool.len() - at,
    {
        let entry: usize = at + 1;
        match &constant_pool[at] {
            ConstantPoolItem::Class(name) => {
                check_reference(constant_pool, entry, *name, Target::Utf8)?;
            },
            ConstantPoolItem::String(text) => {
                check_reference(constant_pool, entry, *text, Target::Utf8)?;
            },
            ConstantPoolItem::Fieldref(class, member)
            | ConstantPoolItem::Methodref(class, member)
            | ConstantPoolItem::InterfaceMethodref(class, member) => {
                check_reference(constant_pool, entry, *class, Target::Class)?;
                check_reference(constant_pool, entry, *member, Target::NameAndType)?;
            },
            ConstantPoolItem::NameAndType(name, descriptor) => {
                check_reference(constant_pool, entry, *name, Target::Utf8)?;
                check_reference(constant_pool, entry, *descriptor, Target::Utf8)?;
            },
            ConstantPoolItem::MethodHandle(_, reference) => {
                check_reference(constant_pool, entry, *reference, Target::Member)?;
            },
            ConstantPoolItem::MethodType(descriptor) => {
                check_reference(constant_pool, entry, *descriptor, Target::Utf8)?;
            },
            ConstantPoolItem::InvokeDynamic(_, member) => {
                check_reference(constant_pool, entry, *member, Target::NameAndType)?;
            },
            _ => {},
        }
        at = at + 1;
    }
    Ok(())
}

/// `first` put in front of the entries of a decoding outcome; a failure stays as it is.
pub open spec fn with_first(first: ItemView, rest: Result<Seq<ItemView>, DecodeError>) -> Result<
    Seq<ItemView>,
    DecodeError,
> {
    match rest {
        Ok(entries) => Ok(seq![first] + entries),
        Err(error) => Err(error),
    }
}

/// What decoding `count` entries in a row finds in `bytes` from `pos` on, and the position
/// at which reading stops. The stream running out before the last of them is `Truncated` at
/// the position where the next tag was due.
pub open spec fn entries_from(bytes: Seq<u8>, pos: int, count: nat) -> (
    Result<Seq<ItemView>, DecodeError>,
    int,
)
    decreases count,
{
    if count == 0 {
        (Ok(Seq::empty()), pos)
    } else {
        match entry_at(bytes, pos) {
            Step::End => (Err(DecodeError::Truncated { offset: pos as usize }), pos),
            Step::Fault { error, at } => (Err(error), at),
            Step::Entry { item, next } => {
                let (rest, end) = entries_from(bytes, next, (count - 1) as nat);
                (with_first(item, rest), end)
            },
        }
    }
}

/// The number of entries in a pool whose declared count is `declared`: one less, as index
/// zero names no entry, and none for a declared count of zero.
pub open spec fn usable_entries(declared: nat) -> nat {
    if declared == 0 {
        0
    } else {
        (declared - 1) as nat
    }
}

/// The outcome of decoding the pool of declared count `declared` that starts `bytes`: the
/// resolved table with the number of bytes it takes, or the first failure of decoding, else
/// of resolution.
pub open spec fn pool_of(bytes: Seq<u8>, declared: nat) -> Result<
    (Seq<ItemView>, int),
    DecodeError,
> {
    let (entries, end) = entries_from(bytes, 0, usable_entries(declared));
    match entries {
        Err(error) => Err(error),
        Ok(table) => match resolution(table) {
            Err(error) => Err(error),
            Ok(_) => Ok((table, end)),
        },
    }
}

/// `prefix` put in front of the entries of an outcome of `entries_from`.
pub open spec fn joined(
    prefix: Seq<ItemView>,
    rest: (Result<Seq<ItemView>, DecodeError>, int),
) -> (Result<Seq<ItemView>, DecodeError>, int) {
    match rest.0 {
        Ok(entries) => (Ok(prefix + entries), rest.1),
        Err(error) => (Err(error), rest.1),
    }
}

/// Putting `prefix` in front of an entry and what follows it is putting `prefix` with that
/// entry in front of what follows.
proof fn lemma_joined_step(
    bytes: Seq<u8>,
    prefix: Seq<ItemView>,
    pos: int,
    item: ItemView,
    next: int,
    left: nat,
)
    requires
        entry_at(bytes, pos) == (Step::Entry { item, next }),
    ensures
        joined(prefix, entries_from(bytes, pos, left + 1)) == joined(
            prefix.push(item),
            entries_from(bytes, next, left),
        ),
{
    let rest = entries_from(bytes, next, left);
    if let Ok(entries) = rest.0 {
        assert(prefix + (seq![item] + entries) =~= prefix.push(item) + entries);
    }
}

/// Decodes `count` entries in a row from `cursor`, in stream order, into a table with room
/// for as many.
///
/// Fails with the failure of the first entry that cannot be decoded, and with `Truncated`
/// where the stream ends before the last entry.
pub fn parse_entries(cursor: &mut Cursor, count: u16) -> (entries: Result<
    Vec<ConstantPoolItem>,
    DecodeError,
>)
    ensures
        final(cursor).bytes() == old(cursor).bytes(),
        final(cursor).offset() == entries_from(
            old(cursor).bytes(),
            old(cursor).offset() as int,
            count as nat,
        ).1,
        match entries_from(old(cursor).bytes(), old(cursor).offset() as int, count as nat).0 {
            Ok(table) => entries matches Ok(items) && table_view(items@) == table,
            Err(error) => entries == Err::<Vec<ConstantPoolItem>, DecodeError>(error),
        },
{
    let ghost bytes = cursor.bytes();
    let ghost start = cursor.offset() as int;
    let mut items: Vec<ConstantPoolItem> = Vec::with_capacity(count as usize);
    let mut done: u16 = 0;
    while done < count
        invariant
            done <= count,
            bytes == old(cursor).bytes(),
            start == old(cursor).offset(),
            cursor.bytes() == bytes,
            items@.len() == done,
            entries_from(bytes, start, count as nat) == joined(
                table_view(items@),
                entries_from(bytes, cursor.offset() as int, (count - done) as nat),
            ),
        decreases count - done,
    {
        let ghost pos = cursor.offset() as int;
        let at: usize = cursor.consumed();
        match parse_constant_pool_tag(cursor) {
            Err(error) => {
                return Err(error);
            },
            Ok(None) => {
                return Err(DecodeError::Truncated { offset: at });
            },
            Ok(Some(item)) => {
                proof {
                    let left = (count - done - 1) as nat;
                    assert(table_view(items@.push(item)) =~= table_view(items@).push(item@));
                    lemma_joined_step(
                        bytes,
                        table_view(items@),
                        pos,
                        item@,
                        cursor.offset() as int,
                        left,
                    );
                }
                items.push(item);
                done = done + 1;
            },
        }
    }
    Ok(items)
}

/// A constant pool whose references have all been resolved.
#[derive(Debug, PartialEq, Eq)]
pub struct ConstantPool {
    entries: Vec<ConstantPoolItem>,
}

impl View for ConstantPool {
    type V = Seq<ItemView>;

    closed spec fn view(&self) -> Seq<ItemView> {
        table_view(self.entries@)
    }
}

/// An outcome of `ConstantPool::decode` as a mathematical value: the entries of the pool and
/// the number of bytes consumed, or the failure.
pub open spec fn outcome_view(decoded: Result<(ConstantPool, usize), DecodeError>) -> Result<
    (Seq<ItemView>, int),
    DecodeError,
> {
    match decoded {
        Ok((pool, consumed)) => Ok((pool@, consumed as int)),
        Err(error) => Err(error),
    }
}

/// Decoding is repeatable: two outcomes of decoding the same bytes under the same declared
/// count hold the same entries in the same order and the same number of bytes consumed, or
/// the same failure.
pub proof fn lemma_decode_is_repeatable(
    bytes: Seq<u8>,
    declared: nat,
    first: Result<(ConstantPool, usize), DecodeError>,
    second: Result<(ConstantPool, usize), DecodeError>,
)
    requires
        outcome_view(first) == pool_of(bytes, declared),
        outcome_view(second) == pool_of(bytes, declared),
    ensures
        outcome_view(first) == outcome_view(second),
        first matches Ok((one, _)) ==> second matches Ok((other, _)) && one@ == other@,
{
}

impl ConstantPool {
    #[verifier::type_invariant]
    spec fn resolved(self) -> bool {
        resolves(table_view(self.entries@))
    }

    /// Makes a pool of `entries`, if their references resolve.
    pub fn from_entries(entries: Vec<ConstantPoolItem>) -> (made: Result<ConstantPool, DecodeError>)
        ensures
            match resolution(table_view(entries@)) {
                Ok(_) => made matches Ok(pool) && pool@ == table_view(entries@),
                Err(error) => made == Err::<ConstantPool, DecodeError>(error),
            },
    {
        match parse_constant_pool(&entries) {
            Ok(_) => Ok(ConstantPool { entries }),
            Err(error) => Err(error),
        }
    }

    /// Decodes the pool that starts `data`, declared with `count`, and resolves it.
    ///
    /// Returns the pool with the number of bytes that it takes in `data`, so that reading can
    /// go on behind it. Fails as a whole with the first failure of decoding, else of
    /// resolution.
    pub fn decode(data: &[u8], count: u16) -> (decoded: Result<(ConstantPool, usize), DecodeError>)
        ensures
            outcome_view(decoded) == pool_of(data@, count as nat),
    {
        let usable: u16 = if count == 0 {
            0
        } else {
            count - 1
        };
        let mut cursor = Cursor::new(data);
        let entries = parse_entries(&mut cursor, usable)?;
        let consumed: usize = cursor.consumed();
        let pool = ConstantPool::from_entries(entries)?;
        Ok((pool, consumed))
    }

    /// The number of entries.
    pub fn len(&self) -> (n: usize)
        ensures
            n == self@.len(),
    {
        self.entries.len()
    }

    /// The entry with the one-based `index`, or `None` where `index` is zero or beyond the
    /// table.
    pub fn get(&self, index: usize) -> (found: Option<&ConstantPoolItem>)
        ensures
            match found {
                Some(item) => spec_lookup(self@, index as int) == Some(item@),
                None => spec_lookup(self@, index as int) is None,
            },
    {
        lookup(&self.entries, index)
    }

    /// The entries in table order.
    pub fn entries(&self) -> (items: &Vec<ConstantPoolItem>)
        ensures
            table_view(items@) == self@,
            resolves(self@),
    {
        proof {
            use_type_invariant(self);
        }
        &self.entries
    }
}

} // verus!
