//! Field descriptors: the short texts that name the type of a field.
//!
//! A descriptor is a primitive code, a class name written `L<name>;` with the parts of the
//! name parted by `/`, or up to 255 `[` in front of either, for an array.

use std::str::Chars;
use vstd::prelude::*;
use vstd::std_specs::iter::IteratorSpec;
use crate::error::DecodeError;

verus! {

broadcast use vstd::string::group_string_axioms;

/// The type that a field descriptor names.
///
/// In an `Array` the number is the depth, at least 1, and the element is never itself an
/// `Array`.
#[derive(Debug, PartialEq, Eq)]
pub enum FieldDescriptor {
    Byte,
    Boolean,
    Char,
    Double,
    Float,
    Integer,
    Long,
    /// A class, by the parts of its name.
    Reference(Vec<String>),
    Short,
    /// An array, by its depth and the type of its elements.
    Array(u8, Box<FieldDescriptor>),
}

/// A field descriptor as a mathematical value: the variants of `FieldDescriptor`, with each
/// part of a class name as the sequence of its characters.
pub enum DescriptorView {
    Byte,
    Boolean,
    Char,
    Double,
    Float,
    Integer,
    Long,
    Reference(Seq<Seq<char>>),
    Short,
    Array(nat, Box<DescriptorView>),
}

/// The texts of `names`, in order.
pub open spec fn names_view(names: Seq<String>) -> Seq<Seq<char>> {
    names.map_values(|name: String| name@)
}

/// The mathematical value of `descriptor`.
pub open spec fn view_of(descriptor: FieldDescriptor) -> DescriptorView
    decreases descriptor,
{
    match descriptor {
        FieldDescriptor::Byte => DescriptorView::Byte,
        FieldDescriptor::Boolean => DescriptorView::Boolean,
        FieldDescriptor::Char => DescriptorView::Char,
        FieldDescriptor::Double => DescriptorView::Double,
        FieldDescriptor::Float => DescriptorView::Float,
        FieldDescriptor::Integer => DescriptorView::Integer,
        FieldDescriptor::Long => DescriptorView::Long,
        FieldDescriptor::Reference(names) => DescriptorView::Reference(names_view(names@)),
        FieldDescriptor::Short => DescriptorView::Short,
        FieldDescriptor::Array(depth, element) => DescriptorView::Array(
            depth as nat,
            Box::new(view_of(*element)),
        ),
    }
}

impl View for FieldDescriptor {
    type V = DescriptorView;

    open spec fn view(&self) -> DescriptorView {
        view_of(*self)
    }
}

/// The primitive type that the one-letter `code` names, if it names one.
pub open spec fn primitive_of(code: char) -> Option<DescriptorView> {
    if code == 'B' {
        Some(DescriptorView::Byte)
    } else if code == 'C' {
        Some(DescriptorView::Char)
    } else if code == 'D' {
        Some(DescriptorView::Double)
    } else if code == 'F' {
        Some(DescriptorView::Float)
    } else if code == 'I' {
        Some(DescriptorView::Integer)
    } else if code == 'J' {
        Some(DescriptorView::Long)
    } else if code == 'S' {
        Some(DescriptorView::Short)
    } else if code == 'Z' {
        Some(DescriptorView::Boolean)
    } else {
        None
    }
}

/// Whether `c` may stand in a class name: anything but `.`, `[` and the closing `;`.
pub open spec fn is_name_char(c: char) -> bool {
    c != '.' && c != '[' && c != ';'
}

/// Whether every character of `name` may stand in a class name.
pub open spec fn is_name(name: Seq<char>) -> bool {
    forall|i: int| 0 <= i < name.len() ==> is_name_char(#[trigger] name[i])
}

/// The parts of `name` between its `/` characters. There is one part more than there are
/// `/`, and a part may be empty.
pub open spec fn split(name: Seq<char>) -> Seq<Seq<char>>
    decreases name.len(),
{
    if name.len() == 0 {
        seq![Seq::empty()]
    } else {
        let before = split(name.drop_last());
        if name.last() == '/' {
            before.push(Seq::empty())
        } else {
            before.drop_last().push(before.last().push(name.last()))
        }
    }
}

/// The class that `text` names, where `text` is `L`, a name and `;`.
pub open spec fn reference_of(text: Seq<char>) -> Option<DescriptorView> {
    let name = text.subrange(1, text.len() - 1);
    if text.len() >= 2 && text[0] == 'L' && text.last() == ';' && is_name(name) {
        Some(DescriptorView::Reference(split(name)))
    } else {
        None
    }
}

/// The type that `text` names without any `[`: a primitive, where `text` is one primitive
/// code and nothing else, or a class.
pub open spec fn element_of(text: Seq<char>) -> Option<DescriptorView> {
    if text.len() == 1 && primitive_of(text[0]) is Some {
        primitive_of(text[0])
    } else {
        reference_of(text)
    }
}

/// The number of `[` that `text` starts with.
pub open spec fn leading_brackets(text: Seq<char>) -> nat
    decreases text.len(),
{
    if text.len() > 0 && text[0] == '[' {
        1 + leading_brackets(text.drop_first())
    } else {
        0
    }
}

/// A text that starts with `count` brackets has at least `count` leading brackets, and
/// exactly `count` where the next character, if there is one, is no bracket.
pub proof fn lemma_leading_brackets(text: Seq<char>, count: int)
    requires
        0 <= count <= text.len(),
        forall|i: int| 0 <= i < count ==> text[i] == '[',
    ensures
        leading_brackets(text) >= count,
        count == text.len() || text[count] != '[' ==> leading_brackets(text) == count,
    decreases count,
{
    if count > 0 {
        lemma_leading_brackets(text.drop_first(), count - 1);
    }
}

/// `element` as it is, for depth 0; as the element of an array, for a depth up to 255;
/// nothing beyond that.
pub open spec fn wrapped(depth: nat, element: Option<DescriptorView>) -> Option<DescriptorView> {
    match element {
        Some(inner) => if depth == 0 {
            Some(inner)
        } else if depth <= 255 {
            Some(DescriptorView::Array(depth, Box::new(inner)))
        } else {
            None
        },
        None => None,
    }
}

/// The type that `text` names, or `None` where `text` is no field descriptor: what follows
/// the leading brackets of `text`, as an array of as many dimensions as there are brackets.
pub open spec fn descriptor_of(text: Seq<char>) -> Option<DescriptorView> {
    let depth = leading_brackets(text);
    wrapped(depth, element_of(text.skip(depth as int)))
}

/// The primitive type that `code` names.
fn primitive(code: char) -> (kind: Option<FieldDescriptor>)
    ensures
        match kind {
            Some(descriptor) => primitive_of(code) == Some(descriptor@),
            None => primitive_of(code) is None,
        },
{
    match code {
        'B' => Some(FieldDescriptor::Byte),
        'C' => Some(FieldDescriptor::Char),
        'D' => Some(FieldDescriptor::Double),
        'F' => Some(FieldDescriptor::Float),
        'I' => Some(FieldDescriptor::Integer),
        'J' => Some(FieldDescriptor::Long),
        'S' => Some(FieldDescriptor::Short),
        'Z' => Some(FieldDescriptor::Boolean),
        _ => None,
    }
}

/// Reads a class name and the `;` that closes it, which have to be all that is left in
/// `chars`, and returns the parts of the name.
fn parse_class_name(chars: &mut Chars<'_>, Ghost(rest): Ghost<Seq<char>>) -> (name: Option<
    Vec<String>,
>)
    requires
        (*old(chars)).remaining() == rest,
        (*old(chars)).decrease() is Some,
        (*old(chars)).obeys_prophetic_iter_laws(),
    ensures
        match name {
            Some(parts) => {
                &&& rest.len() >= 1
                &&& rest.last() == ';'
                &&& is_name(rest.drop_last())
                &&& names_view(parts@) == split(rest.drop_last())
            },
            None => rest.len() == 0 || rest.last() != ';' || !is_name(rest.drop_last()),
        },
{
    let mut identifiers: Vec<String> = Vec::new();
    let mut current = String::new();
    let ghost mut read: int = 0;
    loop
        invariant_except_break
            names_view(identifiers@).push(current@) == split(rest.take(read)),
            is_name(rest.take(read)),
        invariant
            0 <= read <= rest.len(),
            (*chars).remaining() == rest.skip(read),
            (*chars).decrease() is Some,
            (*chars).obeys_prophetic_iter_laws(),
        ensures
            0 < read <= rest.len(),
            rest[read - 1] == ';',
            is_name(rest.take(read - 1)),
            names_view(identifiers@) == split(rest.take(read - 1)),
        decreases (*chars).decrease()->0,
    {
        match chars.next() {
            None => {
                return None;
            },
            Some(c) => {
                let ghost before = rest.take(read);
                proof {
                    read = read + 1;
                    assert(rest.take(read).drop_last() =~= before);
                }
                if c == '.' || c == '[' {
                    proof {
                        if read < rest.len() {
                            assert(rest.drop_last()[read - 1] == c);
                        }
                    }
                    return None;
                } else if c == '/' {
                    proof {
                        assert(names_view(identifiers@.push(current)) =~= names_view(
                            identifiers@,
                        ).push(current@));
                    }
                    identifiers.push(current);
                    current = String::new();
                } else if c == ';' {
                    proof {
                        assert(names_view(identifiers@.push(current)) =~= names_view(
                            identifiers@,
                        ).push(current@));
                    }
                    identifiers.push(current);
                    break;
                } else {
                    current.push(c);
                }
            },
        }
    }
    match chars.next() {
        Some(_) => {
            proof {
                assert(rest.drop_last()[read - 1] == ';');
            }
            None
        },
        None => Some(identifiers),
    }
}

/// Decodes a field descriptor.
///
/// Fails with `InvalidDescriptor` on every text that is not, as a whole, a primitive code, a
/// class name between `L` and `;`, or 1 to 255 `[` followed by one of the two. The parts of a
/// class name may hold any character but `/`, `.`, `[` and `;`, and may be empty.
pub fn parse_field_descriptor(descriptor: &str) -> (parsed: Result<FieldDescriptor, DecodeError>)
    ensures
        match descriptor_of(descriptor@) {
            Some(view) => parsed matches Ok(found) && found@ == view,
            None => parsed == Err::<FieldDescriptor, DecodeError>(DecodeError::InvalidDescriptor),
        },
        parsed matches Ok(found) ==> is_well_formed(found@) && render(found@) == descriptor@,
        leading_brackets(descriptor@) > 255 ==> parsed is Err,
{
    let ghost text = descriptor@;
    let mut chars = descriptor.chars();
    let ghost mut read: int = 0;
    let mut depth: u8 = 0;
    let mut lead: char = '[';
    loop
        invariant_except_break
            read == depth,
        invariant
            text == descriptor@,
            0 <= read <= text.len(),
            forall|i: int| 0 <= i < depth ==> text[i] == '[',
            chars.remaining() == text.skip(read),
            chars.decrease() is Some,
            chars.obeys_prophetic_iter_laws(),
        ensures
            read == depth + 1,
            lead == text[depth as int],
            lead != '[',
        decreases chars.decrease()->0,
    {
        match chars.next() {
            None => {
                proof {
                    lemma_leading_brackets(text, read);
                }
                return Err(DecodeError::InvalidDescriptor);
            },
            Some(c) => {
                proof {
                    read = read + 1;
                }
                if c != '[' {
                    lead = c;
                    break;
                }
                if depth == 255 {
                    proof {
                        lemma_leading_brackets(text, read);
                    }
                    return Err(DecodeError::InvalidDescriptor);
                }
                depth = depth + 1;
            },
        }
    }
    let ghost element = text.skip(depth as int);
    proof {
        lemma_leading_brackets(text, depth as int);
    }
    let found: FieldDescriptor = if lead == 'L' {
        match parse_class_name(&mut chars, Ghost(text.skip(read))) {
            None => {
                proof {
                    let rest = text.skip(read);
                    if rest.len() > 0 {
                        assert(element.subrange(1, element.len() - 1) =~= rest.drop_last());
                    }
                }
                return Err(DecodeError::InvalidDescriptor);
            },
            Some(identifiers) => {
                proof {
                    let rest = text.skip(read);
                    assert(element.subrange(1, element.len() - 1) =~= rest.drop_last());
                }
                FieldDescriptor::Reference(identifiers)
            },
        }
    } else {
        match (primitive(lead), chars.next()) {
            (Some(kind), None) => kind,
            _ => {
                return Err(DecodeError::InvalidDescriptor);
            },
        }
    };
    proof {
        assert(element_of(element) == Some(found@));
        lemma_decoded_is_rendered(text);
    }
    if depth == 0 {
        Ok(found)
    } else {
        Ok(FieldDescriptor::Array(depth, Box::new(found)))
    }
}

/// Whether `part` may stand between two `/` of a class name.
pub open spec fn is_part(part: Seq<char>) -> bool {
    forall|i: int| 0 <= i < part.len() ==> is_name_char(#[trigger] part[i]) && part[i] != '/'
}

/// Whether `view` is a type that a descriptor without `[` can name: a primitive, or a class
/// whose name has at least one part.
pub open spec fn is_element(view: DescriptorView) -> bool {
    match view {
        DescriptorView::Array(_, _) => false,
        DescriptorView::Reference(parts) => parts.len() >= 1 && forall|i: int|
            0 <= i < parts.len() ==> is_part(#[trigger] parts[i]),
        _ => true,
    }
}

/// Whether `view` is a type that a descriptor can name: an element, or an array of depth 1
/// to 255 of an element.
pub open spec fn is_well_formed(view: DescriptorView) -> bool {
    match view {
        DescriptorView::Array(depth, element) => 1 <= depth <= 255 && is_element(*element),
        other => is_element(other),
    }
}

/// The `parts` with a `/` between each two.
pub open spec fn join(parts: Seq<Seq<char>>) -> Seq<char>
    decreases parts.len(),
{
    if parts.len() == 0 {
        Seq::empty()
    } else if parts.len() == 1 {
        parts[0]
    } else {
        join(parts.drop_last()) + seq!['/'] + parts.last()
    }
}

/// The descriptor that names the element `view`.
pub open spec fn render_element(view: DescriptorView) -> Seq<char> {
    match view {
        DescriptorView::Byte => seq!['B'],
        DescriptorView::Boolean => seq!['Z'],
        DescriptorView::Char => seq!['C'],
        DescriptorView::Double => seq!['D'],
        DescriptorView::Float => seq!['F'],
        DescriptorView::Integer => seq!['I'],
        DescriptorView::Long => seq!['J'],
        DescriptorView::Short => seq!['S'],
        DescriptorView::Reference(parts) => seq!['L'] + join(parts) + seq![';'],
        DescriptorView::Array(_, _) => Seq::empty(),
    }
}

/// The descriptor that names `view`.
pub open spec fn render(view: DescriptorView) -> Seq<char> {
    match view {
        DescriptorView::Array(depth, element) => Seq::new(depth, |i: int| '[') + render_element(
            *element,
        ),
        other => render_element(other),
    }
}

/// The parts of a name are at least one, none holds a `/`, and joined they are the name.
pub proof fn lemma_join_of_split(name: Seq<char>)
    ensures
        split(name).len() >= 1,
        forall|i: int, j: int|
            0 <= i < split(name).len() && 0 <= j < split(name)[i].len() ==> split(name)[i][j]
                != '/',
        is_name(name) ==> forall|i: int|
            0 <= i < split(name).len() ==> is_part(#[trigger] split(name)[i]),
        join(split(name)) == name,
    decreases name.len(),
{
    if name.len() > 0 {
        let shorter = name.drop_last();
        let before = split(shorter);
        let parts = split(name);
        lemma_join_of_split(shorter);
        if is_name(name) {
            assert(is_name(shorter));
        }
        if name.last() == '/' {
            assert(parts.drop_last() =~= before);
        } else {
            assert(is_name(name) ==> is_part(parts.last()));
            if before.len() > 1 {
                assert(parts.drop_last() =~= before.drop_last());
                assert(join(parts) =~= (join(before.drop_last()) + seq!['/'] + before.last()).push(
                    name.last(),
                ));
            }
        }
    }
}

/// Splitting what is in front of a `/`-free `part`, with a `/` between, gives the parts in
/// front and then `part`; splitting a `/`-free `part` alone gives `part`.
proof fn lemma_split_last_part(front: Seq<char>, part: Seq<char>)
    requires
        forall|j: int| 0 <= j < part.len() ==> part[j] != '/',
    ensures
        split(front + seq!['/'] + part) == split(front).push(part),
        split(part) == seq![part],
    decreases part.len(),
{
    let whole = front + seq!['/'] + part;
    if part.len() == 0 {
        assert(whole.drop_last() =~= front);
        assert(part =~= Seq::<char>::empty());
    } else {
        let shorter = part.drop_last();
        lemma_split_last_part(front, shorter);
        assert(whole.drop_last() =~= front + seq!['/'] + shorter);
        assert(shorter.push(part.last()) =~= part);
    }
}

/// Joining parts and splitting the name again gives the parts back, and the name is one
/// that may stand in a descriptor.
pub proof fn lemma_split_of_join(parts: Seq<Seq<char>>)
    requires
        parts.len() >= 1,
        forall|i: int| 0 <= i < parts.len() ==> is_part(#[trigger] parts[i]),
    ensures
        split(join(parts)) == parts,
        is_name(join(parts)),
    decreases parts.len(),
{
    let last = parts.last();
    if parts.len() == 1 {
        lemma_split_last_part(Seq::empty(), last);
    } else {
        let front = parts.drop_last();
        lemma_split_of_join(front);
        lemma_split_last_part(join(front), last);
    }
}

/// An element is named by its own descriptor.
proof fn lemma_element_round_trip(view: DescriptorView)
    requires
        is_element(view),
    ensures
        element_of(render_element(view)) == Some(view),
        render_element(view).len() >= 1,
        render_element(view)[0] != '[',
{
    if let DescriptorView::Reference(parts) = view {
        let text = render_element(view);
        let name = join(parts);
        lemma_split_of_join(parts);
        assert(text.subrange(1, text.len() - 1) =~= name);
    }
}

/// Round trip: the descriptor that names a type decodes to that type, for every type that a
/// descriptor can name.
pub proof fn lemma_descriptor_round_trip(view: DescriptorView)
    requires
        is_well_formed(view),
    ensures
        descriptor_of(render(view)) == Some(view),
{
    match view {
        DescriptorView::Array(depth, element) => {
            lemma_element_round_trip(*element);
            lemma_leading_brackets(render(view), depth as int);
            assert(render(view).skip(depth as int) =~= render_element(*element));
        },
        _ => {
            lemma_element_round_trip(view);
            lemma_leading_brackets(render(view), 0);
            assert(render(view).skip(0) =~= render(view));
        },
    }
}

/// What a descriptor decodes to is a type that a descriptor can name, and the descriptor
/// that names it is the text that was decoded: no two texts decode to the same type.
pub proof fn lemma_decoded_is_rendered(text: Seq<char>)
    ensures
        descriptor_of(text) matches Some(view) ==> is_well_formed(view) && render(view) == text,
{
    let element = text.skip(leading_brackets(text) as int);
    lemma_brackets_are_leading(text);
    lemma_join_of_split(element.subrange(1, element.len() - 1));
}

/// The leading brackets of a text are brackets, and they are within the text.
proof fn lemma_brackets_are_leading(text: Seq<char>)
    ensures
        leading_brackets(text) <= text.len(),
        forall|i: int| 0 <= i < leading_brackets(text) ==> text[i] == '[',
    decreases text.len(),
{
    if text.len() > 0 && text[0] == '[' {
        let rest = text.drop_first();
        lemma_brackets_are_leading(rest);
        assert forall|i: int| 0 <= i < leading_brackets(text) implies text[i] == '[' by {
            if i > 0 {
                assert(text[i] == rest[i - 1]);
            }
        }
    }
}

/// A class entry of the constant pool together with the type that its name stands for.
pub struct ReferenceClassDescriptor {
    /// The index of the class entry in the constant pool.
    index: usize,
    /// The decoded type.
    thing: FieldDescriptor,
}

impl ReferenceClassDescriptor {
    /// The index of the class entry in the constant pool.
    pub closed spec fn spec_index(&self) -> usize {
        self.index
    }

    /// The decoded type.
    pub closed spec fn spec_thing(&self) -> FieldDescriptor {
        self.thing
    }

    /// Pairs the pool index of a class entry with its decoded type.
    pub fn new(index: usize, thing: FieldDescriptor) -> (made: Self)
        ensures
            made.spec_index() == index,
            made.spec_thing() == thing,
    {
        ReferenceClassDescriptor { index, thing }
    }

    /// The index of the class entry in the constant pool.
    pub fn index(&self) -> (index: usize)
        ensures
            index == self.spec_index(),
    {
        self.index
    }

    /// The decoded type.
    pub fn thing(&self) -> (thing: &FieldDescriptor)
        ensures
            *thing == self.spec_thing(),
    {
        &self.thing
    }
}

} // verus!
