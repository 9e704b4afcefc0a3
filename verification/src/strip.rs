//! Stripping pronunciation annotations from markup.
//!
//! Stripping cuts bytes out of a document and touches nothing else: the
//! tags of annotations and of their wrappers go, and so does the text inside
//! an annotation. Every other byte of the document stays where it was.

use crate::layout::{
    append_range, boundaries, boundary, laid_out, lemma_ranges_tile, range, ranges_upto,
    start_of, tail,
};
use crate::markup::{EventKind, EventModel, MarkupError, MarkupEvent};
use vstd::prelude::*;

verus! {

/// The name of the pronunciation annotation tag, `rt`, in bytes.
pub open spec fn annotation_tag() -> Seq<u8> {
    seq![0x72u8, 0x74]
}

/// The name of the tag that wraps an annotated base text, `ruby`, in bytes.
pub open spec fn annotation_wrapper_tag() -> Seq<u8> {
    seq![0x72u8, 0x75, 0x62, 0x79]
}

/// Whether every event is a well-formed one.
pub open spec fn well_formed(events: Seq<EventModel>) -> bool {
    forall|i: int| 0 <= i < events.len() ==> (#[trigger] events[i]).kind != EventKind::Malformed
}

/// Whether text that follows `events` lies inside a pronunciation
/// annotation: the last annotation tag among them is an opening one.
pub open spec fn inside_annotation(events: Seq<EventModel>) -> bool
    decreases events.len(),
{
    if events.len() == 0 {
        false
    } else {
        let last = events.last();
        if last.kind == EventKind::Start && last.name() == annotation_tag() {
            true
        } else if last.kind == EventKind::End && last.name() == annotation_tag() {
            false
        } else {
            inside_annotation(events.drop_last())
        }
    }
}

/// Whether the event at index `i` is the opening or the closing tag of an
/// annotation or of its wrapper.
pub open spec fn is_annotation_tag(events: Seq<EventModel>, i: int) -> bool {
    (events[i].kind == EventKind::Start || events[i].kind == EventKind::End) && (events[i].name()
        == annotation_tag() || events[i].name() == annotation_wrapper_tag())
}

/// Whether stripping keeps the event at index `i`: it drops the opening and
/// closing tags of annotations and of their wrappers, and the text inside an
/// annotation.
pub open spec fn kept(events: Seq<EventModel>, i: int) -> bool {
    !is_annotation_tag(events, i) && !(events[i].kind == EventKind::Text && inside_annotation(
        events.take(i),
    ))
}

/// The ranges of the events among the first `n` that stripping keeps, one
/// after the other.
pub open spec fn kept_upto(content: Seq<u8>, events: Seq<EventModel>, n: int) -> Seq<u8>
    decreases n,
{
    if n <= 0 {
        Seq::empty()
    } else {
        kept_upto(content, events, n - 1) + if kept(events, n - 1) {
            range(content, events, n - 1)
        } else {
            Seq::empty()
        }
    }
}

/// The content without the ranges of the events that stripping drops.
pub open spec fn stripped(content: Seq<u8>, events: Seq<EventModel>) -> Seq<u8> {
    kept_upto(content, events, events.len() as int) + tail(content, events)
}

/// Without annotations, nothing lies inside one.
pub proof fn lemma_outside_annotations(events: Seq<EventModel>, n: int)
    requires
        0 <= n <= events.len(),
        forall|i: int| 0 <= i < events.len() ==> !is_annotation_tag(events, i),
    ensures
        !inside_annotation(events.take(n)),
    decreases n,
{
    if n > 0 {
        assert(events.take(n).drop_last() == events.take(n - 1));
        assert(events.take(n).last() == events[n - 1]);
        assert(!is_annotation_tag(events, n - 1));
        lemma_outside_annotations(events, n - 1);
    }
}

/// Stripping leaves markup without annotations as it is, byte for byte.
pub proof fn lemma_nothing_to_strip(content: Seq<u8>, events: Seq<EventModel>)
    requires
        laid_out(content, events),
        forall|i: int| 0 <= i < events.len() ==> !is_annotation_tag(events, i),
    ensures
        stripped(content, events) == content,
{
    lemma_all_kept(content, events, events.len() as int);
    lemma_ranges_tile(content, events, events.len() as int);
    let cut = start_of(content, events, events.len() as int) as int;
    assert(content.take(cut) + content.skip(cut) == content);
}

proof fn lemma_all_kept(content: Seq<u8>, events: Seq<EventModel>, n: int)
    requires
        0 <= n <= events.len(),
        forall|i: int| 0 <= i < events.len() ==> !is_annotation_tag(events, i),
    ensures
        kept_upto(content, events, n) == ranges_upto(content, events, n),
    decreases n,
{
    if n > 0 {
        lemma_all_kept(content, events, n - 1);
        lemma_outside_annotations(events, n - 1);
        assert(!is_annotation_tag(events, n - 1));
    }
}

/// Whatever stripping keeps is neither a tag of an annotation or of its
/// wrapper nor a text inside an annotation: the output holds the bytes of
/// no such event.
pub proof fn lemma_kept_is_no_annotation(events: Seq<EventModel>, i: int)
    requires
        0 <= i < events.len(),
        kept(events, i),
    ensures
        !is_annotation_tag(events, i),
        events[i].kind == EventKind::Text ==> !inside_annotation(events.take(i)),
{
}

/// Cuts the pronunciation annotations out of `content`, given its events.
/// Fails exactly where an event is malformed or the events do not lie in
/// `content`.
pub fn strip_events(content: &[u8], events: &Vec<MarkupEvent>) -> (r: Result<Vec<u8>, MarkupError>)
    ensures
        match r {
            Ok(out) => well_formed(events.deep_view()) && laid_out(content@, events.deep_view())
                && out@ == stripped(content@, events.deep_view()),
            Err(e) => e == MarkupError::Malformed && !(well_formed(events.deep_view())
                && laid_out(content@, events.deep_view())),
        },
{
    let rt: Vec<u8> = vec![0x72u8, 0x74];
    let ruby: Vec<u8> = vec![0x72u8, 0x75, 0x62, 0x79];
    let ghost models = events.deep_view();
    let bounds = match boundaries(content, events) {
        Some(bounds) => bounds,
        None => {
            return Err(MarkupError::Malformed);
        },
    };
    let mut out: Vec<u8> = Vec::new();
    let mut in_annotation = false;
    let mut start: usize = 0;
    let mut i: usize = 0;
    assert(models.take(0) == Seq::<EventModel>::empty());
    while i < events.len()
        invariant
            i <= events@.len(),
            models == events.deep_view(),
            rt@ == annotation_tag(),
            ruby@ == annotation_wrapper_tag(),
            laid_out(content@, models),
            bounds@.len() == events@.len(),
            forall|k: int|
                0 <= k < bounds@.len() ==> (#[trigger] bounds@[k]) == boundary(
                    content@,
                    models[k],
                ),
            start == start_of(content@, models, i as int),
            start <= content@.len(),
            well_formed(models.take(i as int)),
            out@ == kept_upto(content@, models, i as int),
            in_annotation == inside_annotation(models.take(i as int)),
        decreases events@.len() - i,
    {
        let event = &events[i];
        let end = bounds[i];
        let ghost before = models.take(i as int);
        let ghost after = models.take(i + 1);
        proof {
            assert(after.drop_last() == before);
            assert(after.last() == event@);
            assert(models[i as int] == event@);
            assert(start_of(content@, models, i as int) <= boundary(content@, models[i as int])
                <= content@.len());
        }
        let is_rt = event.has_name(rt.as_slice());
        let is_ruby = event.has_name(ruby.as_slice());
        let keep = match event.kind {
            EventKind::Malformed => {
                assert(models[i as int].kind == EventKind::Malformed);
                return Err(MarkupError::Malformed);
            },
            EventKind::Start => {
                if is_rt {
                    in_annotation = true;
                }
                !is_rt && !is_ruby
            },
            EventKind::End => {
                if is_rt {
                    in_annotation = false;
                }
                !is_rt && !is_ruby
            },
            EventKind::Text => !in_annotation,
            _ => true,
        };
        assert(keep == kept(models, i as int));
        if keep {
            append_range(&mut out, content, start, end);
        }
        assert(well_formed(after)) by {
            assert forall|j: int| 0 <= j < after.len() implies (#[trigger] after[j]).kind
                != EventKind::Malformed by {
                if j < i {
                    assert(before[j] == after[j]);
                }
            }
        }
        start = end;
        i += 1;
    }
    assert(models.take(i as int) == models);
    append_range(&mut out, content, start, content.len());
    assert(content@.subrange(start as int, content@.len() as int) == tail(content@, models));
    Ok(out)
}

} // verus!
