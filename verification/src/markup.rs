//! Markup events as plain data, and their byte form.

use vstd::prelude::*;

verus! {

/// What kind of thing a markup event is.
#[derive(Clone, Copy, Debug, PartialEq, Eq, Structural)]
pub enum EventKind {
    /// An opening tag, `<tag attr="value">`.
    Start,
    /// A closing tag, `</tag>`.
    End,
    /// A self-closed tag, `<tag attr="value"/>`.
    Empty,
    /// Escaped character data between tags.
    Text,
    /// A `<![CDATA[...]]>` section.
    CData,
    /// A comment, `<!-- ... -->`.
    Comment,
    /// The declaration, `<?xml ...?>`.
    Decl,
    /// A processing instruction, `<?...?>`.
    PI,
    /// A document type definition, `<!DOCTYPE ...>`.
    DocType,
    /// A stretch of input that is no well-formed event.
    Malformed,
}

/// One markup event: its kind, the raw bytes between its delimiters, and
/// how many bytes the reader had taken when it yielded the event.
#[derive(Clone, Debug, PartialEq, Eq)]
pub struct MarkupEvent {
    pub kind: EventKind,
    pub content: Vec<u8>,
    pub end: usize,
}

/// The mathematical value of a [`MarkupEvent`].
pub struct EventModel {
    pub kind: EventKind,
    pub content: Seq<u8>,
    pub end: nat,
}

impl View for MarkupEvent {
    type V = EventModel;

    open spec fn view(&self) -> EventModel {
        EventModel { kind: self.kind, content: self.content@, end: self.end as nat }
    }
}

impl DeepView for MarkupEvent {
    type V = EventModel;

    open spec fn deep_view(&self) -> EventModel {
        self@
    }
}

/// The four bytes that separate a tag's name from its attributes: space,
/// carriage return, line feed and tab.
pub open spec fn is_markup_space(b: u8) -> bool {
    b == 0x20 || b == 0x0d || b == 0x0a || b == 0x09
}

/// How many leading bytes of a tag's content form its name: those before the
/// first markup space.
pub open spec fn name_length(content: Seq<u8>) -> nat
    decreases content.len(),
{
    if content.len() == 0 || is_markup_space(content[0]) {
        0
    } else {
        1 + name_length(content.skip(1))
    }
}

impl EventModel {
    /// The tag name of a `Start` or `End` event; empty for the other kinds.
    pub open spec fn name(self) -> Seq<u8> {
        match self.kind {
            EventKind::Start => self.content.take(
                name_length(self.content) as int,
            ),
            EventKind::End => self.content,
            _ => Seq::empty(),
        }
    }
}

/// Appends `bytes` to `out`.
pub fn append_bytes(out: &mut Vec<u8>, bytes: &[u8])
    ensures
        final(out)@ == old(out)@ + bytes@,
{
    let mut i: usize = 0;
    while i < bytes.len()
        invariant
            i <= bytes@.len(),
            out@ == old(out)@ + bytes@.take(i as int),
        decreases bytes@.len() - i,
    {
        out.push(bytes[i]);
        i += 1;
        assert(bytes@.take(i as int) == bytes@.take(i - 1).push(bytes@[i - 1]));
    }
    assert(bytes@.take(i as int) == bytes@);
}

impl MarkupEvent {
    /// Makes an event of the given kind and content that the reader
    /// yielded after `end` bytes.
    pub fn new(kind: EventKind, content: Vec<u8>, end: usize) -> (r: MarkupEvent)
        ensures
            r@ == (EventModel { kind, content: content@, end: end as nat }),
    {
        MarkupEvent { kind, content, end }
    }

    /// The length of the tag name at the start of the content.
    pub fn name_len(&self) -> (r: usize)
        ensures
            r == name_length(self.content@),
            r <= self.content@.len(),
    {
        let mut i: usize = 0;
        assert(self.content@.skip(0) == self.content@);
        while i < self.content.len() && !is_space(self.content[i])
            invariant
                i <= self.content@.len(),
                name_length(self.content@) == i + name_length(self.content@.skip(i as int)),
            decreases self.content@.len() - i,
        {
            assert(self.content@.skip(i as int).skip(1) == self.content@.skip(i + 1));
            i += 1;
        }
        i
    }

    /// The tag name of the event.
    pub fn name(&self) -> (r: Vec<u8>)
        ensures
            r@ == self@.name(),
    {
        let len = match self.kind {
            EventKind::Start => self.name_len(),
            EventKind::End => self.content.len(),
            _ => 0,
        };
        let mut name: Vec<u8> = Vec::new();
        append_bytes(&mut name, vstd::slice::slice_subrange(self.content.as_slice(), 0, len));
        assert(name@ == self.content@.subrange(0, len as int));
        assert(self.content@.take(self.content@.len() as int) == self.content@);
        name
    }

    /// Whether the event is a tag with exactly this name.
    pub fn has_name(&self, name: &[u8]) -> (r: bool)
        ensures
            r == (self@.name() == name@),
    {
        let len = match self.kind {
            EventKind::Start => self.name_len(),
            EventKind::End => self.content.len(),
            _ => 0,
        };
        if len != name.len() {
            return false;
        }
        let mut i: usize = 0;
        while i < len
            invariant
                i <= len,
                len <= self.content@.len(),
                len == name@.len(),
                len == self@.name().len(),
                self@.name() == self.content@.take(len as int),
                forall|j: int| 0 <= j < i ==> self.content@[j] == name@[j],
            decreases len - i,
        {
            if self.content[i] != name[i] {
                assert(self@.name()[i as int] != name@[i as int]);
                return false;
            }
            i += 1;
        }
        assert(self@.name() =~= name@);
        true
    }
}

fn is_space(b: u8) -> (r: bool)
    ensures
        r == is_markup_space(b),
{
    b == 0x20 || b == 0x0d || b == 0x0a || b == 0x09
}

/// Why an entry's markup cannot be processed.
#[derive(Clone, Copy, Debug, PartialEq, Eq, Structural)]
pub enum MarkupError {
    /// The markup is not well formed.
    Malformed,
    /// A tag name is not valid UTF-8.
    TagName,
    /// A text is not valid UTF-8 or holds a reference that stands for nothing.
    TextContent,
    /// The pattern of ignorable blocks is no regular expression.
    Pattern,
    /// There are fewer translated lines than blocks to translate.
    TooFewLines,
}

} // verus!
