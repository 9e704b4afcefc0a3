//! The walk through a document that finds its translatable spans.

use crate::markup::append_bytes;
use crate::resolve::{Piece, PieceModel};
use vstd::prelude::*;

verus! {

/// Whether `name` is the name of a translatable container: a paragraph `p`,
/// a heading `h1` to `h6` or a list item `li`.
pub open spec fn is_container(name: Seq<u8>) -> bool {
    // In bytes: `p` is 70, `l` 6c, `i` 69, `h` 68, and `1` to `6` are 31 to 36.
    ||| name == seq![0x70u8]
    ||| name == seq![0x6cu8, 0x69]
    ||| (name.len() == 2 && name[0] == 0x68 && 0x31 <= name[1] <= 0x36)
}

/// Whether `name` names a translatable container.
pub fn is_container_name(name: &[u8]) -> (r: bool)
    ensures
        r == is_container(name@),
{
    if name.len() == 1 {
        assert(name@ == seq![0x70u8] <==> name@[0] == 0x70) by {
            if name@[0] == 0x70 {
                assert(name@ =~= seq![0x70u8]);
            }
        }
        name[0] == 0x70
    } else if name.len() == 2 {
        assert(name@ == seq![0x6cu8, 0x69] <==> name@[0] == 0x6c && name@[1] == 0x69) by {
            if name@[0] == 0x6c && name@[1] == 0x69 {
                assert(name@ =~= seq![0x6cu8, 0x69]);
            }
        }
        (name[0] == 0x6c && name[1] == 0x69) || (name[0] == 0x68 && 0x31 <= name[1] && name[1]
            <= 0x36)
    } else {
        false
    }
}

fn same_bytes(a: &[u8], b: &[u8]) -> (r: bool)
    ensures
        r == (a@ == b@),
{
    if a.len() != b.len() {
        return false;
    }
    let mut i: usize = 0;
    while i < a.len()
        invariant
            i <= a@.len(),
            a@.len() == b@.len(),
            forall|j: int| 0 <= j < i ==> a@[j] == b@[j],
        decreases a@.len() - i,
    {
        if a[i] != b[i] {
            return false;
        }
        i += 1;
    }
    assert(a@ =~= b@);
    true
}

fn copy_bytes(bytes: &[u8]) -> (r: Vec<u8>)
    ensures
        r@ == bytes@,
{
    let mut copy: Vec<u8> = Vec::new();
    append_bytes(&mut copy, bytes);
    copy
}

/// The state of the walk through a document: whether a translatable span
/// is open, the container tag that opened the last one, how deep the walk
/// is in containers of that name, and the text gathered since the span
/// began.
pub struct Walker {
    translating: bool,
    tag: Vec<u8>,
    depth: i128,
    buffer: String,
}

/// The mathematical value of a [`Walker`].
pub struct WalkerModel {
    pub translating: bool,
    pub tag: Seq<u8>,
    pub depth: int,
    pub buffer: Seq<char>,
}

impl WalkerModel {
    /// The walker before the first event.
    pub open spec fn initial() -> WalkerModel {
        WalkerModel { translating: false, tag: Seq::empty(), depth: 0, buffer: Seq::empty() }
    }

    /// Whether `piece` ends a span: it closes the container that the walker
    /// follows and brings the depth back to zero.
    pub open spec fn closes(self, piece: PieceModel) -> bool {
        piece matches PieceModel::Close(name) && is_container(name) && name == self.tag
            && self.depth == 1
    }

    /// The walker after `piece`. A container opened outside a span begins a
    /// span under its name with an empty buffer; a container of the followed
    /// name adds to the depth when it opens and takes from it when it
    /// closes, and the span ends where the depth comes back to zero; a text
    /// joins the buffer while a span is open.
    pub open spec fn step(self, piece: PieceModel) -> WalkerModel {
        match piece {
            PieceModel::Open(name) => if is_container(name) {
                let begun = if self.translating {
                    self
                } else {
                    WalkerModel { translating: true, tag: name, buffer: Seq::empty(), ..self }
                };
                if name == begun.tag {
                    WalkerModel { depth: begun.depth + 1, ..begun }
                } else {
                    begun
                }
            } else {
                self
            },
            PieceModel::Close(name) => if is_container(name) && name == self.tag {
                WalkerModel {
                    depth: self.depth - 1,
                    translating: self.translating && self.depth != 1,
                    ..self
                }
            } else {
                self
            },
            PieceModel::Text(text) => if self.translating {
                WalkerModel { buffer: self.buffer + text, ..self }
            } else {
                self
            },
            PieceModel::Other => self,
        }
    }
}

impl View for Walker {
    type V = WalkerModel;

    closed spec fn view(&self) -> WalkerModel {
        WalkerModel {
            translating: self.translating,
            tag: self.tag@,
            depth: self.depth as int,
            buffer: self.buffer@,
        }
    }
}

impl Walker {
    /// A walker before the first event.
    pub fn new() -> (walker: Walker)
        ensures
            walker@ == WalkerModel::initial(),
    {
        Walker { translating: false, tag: Vec::new(), depth: 0, buffer: String::new() }
    }

    /// Whether a translatable span is open.
    pub fn is_translating(&self) -> (r: bool)
        ensures
            r == self@.translating,
    {
        self.translating
    }

    /// The text gathered since the last span began.
    pub fn buffer(&self) -> (r: &String)
        ensures
            r@ == self@.buffer,
    {
        &self.buffer
    }

    /// Takes one piece. Returns the text of the span that the piece ends,
    /// if it ends one.
    pub fn step(&mut self, piece: &Piece) -> (closed: Option<String>)
        requires
            i128::MIN < old(self)@.depth < i128::MAX,
        ensures
            final(self)@ == old(self)@.step(piece@),
            match closed {
                Some(text) => old(self)@.closes(piece@) && text@ == old(self)@.buffer,
                None => !old(self)@.closes(piece@),
            },
    {
        match piece {
            Piece::Open(name) => {
                if is_container_name(name.as_slice()) {
                    if !self.translating {
                        self.translating = true;
                        self.tag = copy_bytes(name.as_slice());
                        self.buffer = String::new();
                    }
                    if same_bytes(name.as_slice(), self.tag.as_slice()) {
                        self.depth = self.depth + 1;
                    }
                }
                None
            },
            Piece::Close(name) => {
                if is_container_name(name.as_slice()) && same_bytes(
                    name.as_slice(),
                    self.tag.as_slice(),
                ) {
                    self.depth = self.depth - 1;
                    if self.depth == 0 {
                        self.translating = false;
                        return Some(self.buffer.clone());
                    }
                }
                None
            },
            Piece::Text(text) => {
                if self.translating {
                    self.buffer.append(text.as_str());
                }
                None
            },
            Piece::Other => None,
        }
    }
}

/// The walker after all of `pieces`.
pub open spec fn walked(pieces: Seq<PieceModel>) -> WalkerModel
    decreases pieces.len(),
{
    if pieces.len() == 0 {
        WalkerModel::initial()
    } else {
        walked(pieces.drop_last()).step(pieces.last())
    }
}

/// The text of the span that the piece at index `i` ends, if it ends one.
pub open spec fn closed_text(pieces: Seq<PieceModel>, i: int) -> Option<Seq<char>> {
    let walker = walked(pieces.take(i));
    if walker.closes(pieces[i]) {
        Some(walker.buffer)
    } else {
        None
    }
}

/// For each piece, the text of the span that it ends, if it ends one.
pub open spec fn span_texts(pieces: Seq<PieceModel>) -> Seq<Option<Seq<char>>> {
    Seq::new(pieces.len(), |i: int| closed_text(pieces, i))
}

/// The values of a sequence of optional texts.
pub open spec fn text_views(texts: Seq<Option<String>>) -> Seq<Option<Seq<char>>> {
    Seq::new(
        texts.len(),
        |i: int|
            match texts[i] {
                Some(text) => Some(text@),
                None => None,
            },
    )
}

/// The depth of a walk is bounded by its length.
pub proof fn lemma_walk_depth(pieces: Seq<PieceModel>)
    ensures
        -pieces.len() <= walked(pieces).depth <= pieces.len(),
    decreases pieces.len(),
{
    if pieces.len() > 0 {
        lemma_walk_depth(pieces.drop_last());
    }
}

/// Walks through the pieces and tells, for each, the text of the span that
/// it ends, if it ends one.
pub fn close_spans(pieces: &Vec<Piece>) -> (spans: Vec<Option<String>>)
    ensures
        text_views(spans@) == span_texts(pieces.deep_view()),
{
    let ghost models = pieces.deep_view();
    let mut walker = Walker::new();
    let mut spans: Vec<Option<String>> = Vec::new();
    let mut i: usize = 0;
    assert(models.take(0) == Seq::<PieceModel>::empty());
    while i < pieces.len()
        invariant
            i <= pieces@.len(),
            models == pieces.deep_view(),
            walker@ == walked(models.take(i as int)),
            spans@.len() == i,
            forall|j: int| 0 <= j < i ==> (#[trigger] text_views(spans@)[j]) == closed_text(models, j),
        decreases pieces@.len() - i,
    {
        let ghost after = models.take(i + 1);
        let ghost done = spans@;
        proof {
            assert(after.drop_last() == models.take(i as int));
            assert(after.last() == pieces[i as int]@);
            lemma_walk_depth(models.take(i as int));
        }
        let closed = walker.step(&pieces[i]);
        spans.push(closed);
        proof {
            assert forall|j: int| 0 <= j < i + 1 implies (#[trigger] text_views(spans@)[j])
                == closed_text(models, j) by {
                if j < i {
                    assert(text_views(done)[j] == closed_text(models, j));
                    assert(spans@[j] == done[j]);
                }
            }
        }
        i += 1;
    }
    assert(text_views(spans@) =~= span_texts(models));
    spans
}

} // verus!
